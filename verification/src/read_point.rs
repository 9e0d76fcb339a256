//! Cutting a rollout at a read anchor: everything before the anchored message, the message
//! up to the last character that was read, and a note that the rest was not read.
use crate::rollout;
use crate::rollout::{
    assistant_message_positions_in_rollout, ContentItem, InvalidRequest, ResponseItem, RolloutEntry,
    RolloutItem,
};
use crate::strings;
use crate::strings::{copy_optional, push_decimal, same_text};
use crate::text;
use crate::text::{byte_count, locate_char, to_chars, to_text, width_of};
use vstd::prelude::*;
use vstd::string::*;

verus! {

/// The note that tells the model of a branch what was not read.
pub const BRANCH_NOTE: &'static str = "Branch context note: the user branched from the prior assistant reply at the preserved read point. Content that originally followed that point was not read and has been excluded from this branch context.";

// ---------------------------------------------------------------------------
// Requests that name no place
// ---------------------------------------------------------------------------
/// A complaint about an assistant message.
pub open spec fn about_message(index: int, complaint: Seq<char>) -> Seq<char> {
    "assistant message index "@ + strings::decimal(index as nat) + complaint
}

/// The complaint that a line of a message has no such byte.
pub open spec fn no_byte(index: int, line: int, offset: int) -> Seq<char> {
    about_message(index, " has no byte offset "@) + strings::decimal(offset as nat) + " on line "@
        + strings::decimal(line as nat)
}

/// The complaint that a message has no such line.
pub open spec fn no_line(index: int, line: int) -> Seq<char> {
    about_message(index, " has no source line "@) + strings::decimal(line as nat)
}

/// A complaint about an assistant message.
fn complain(index: usize, complaint: &str) -> (message: String)
    ensures
        message@ == about_message(index as int, complaint@),
{
    let mut message = "assistant message index ".to_owned();
    push_decimal(&mut message, index as u64);
    message.append(complaint);
    message
}

/// A request that is invalid for a reason.
fn invalid<T>(message: String) -> (refused: Result<T, InvalidRequest>)
    ensures
        refused matches Err(request) && request.message == message,
{
    Err(InvalidRequest { message })
}

// ---------------------------------------------------------------------------
// Cutting a message
// ---------------------------------------------------------------------------
/// The index of an output text of a message, counted from the first one.
pub open spec fn output_at(content: Seq<rollout::ContentView>, number: int) -> Option<int>
    decreases content.len(),
{
    if content.len() == 0 {
        None
    } else {
        match output_at(content.drop_last(), number) {
            Some(index) => Some(index),
            None => if content.last() is OutputText && outputs(content.drop_last()).len()
                == number {
                Some(content.len() - 1)
            } else {
                None
            },
        }
    }
}

/// The output texts of a message.
pub open spec fn outputs(content: Seq<rollout::ContentView>) -> Seq<Seq<char>>
    decreases content.len(),
{
    if content.len() == 0 {
        Seq::<Seq<char>>::empty()
    } else {
        match content.last() {
            rollout::ContentView::OutputText(text) => outputs(content.drop_last()).push(text),
            _ => outputs(content.drop_last()),
        }
    }
}

/// A text up to and including the character that covers a byte offset.
pub open spec fn read_text(text: Seq<char>, offset: int) -> Seq<char> {
    text.take(text::char_index(text, offset) + 1)
}

/// The pieces of a message up to and including a byte of one of its output texts.
pub open spec fn read_content(
    content: Seq<rollout::ContentView>,
    line: int,
    offset: int,
) -> Option<Seq<rollout::ContentView>> {
    match output_at(content, line) {
        Some(index) => {
            let text = content[index]->OutputText_0;
            if offset < text::byte_len(text) {
                Some(
                    content.take(index).push(
                        rollout::ContentView::OutputText(read_text(text, offset)),
                    ),
                )
            } else {
                None
            }
        },
        None => None,
    }
}

/// A message of the assistant up to and including a byte of one of its output texts.
pub open spec fn read_message(
    item: rollout::ItemView,
    line: int,
    offset: int,
    index: int,
) -> Result<rollout::ItemView, Seq<char>> {
    match item {
        rollout::ItemView::Other(_) => Err(
            about_message(index, " does not reference a message"@),
        ),
        rollout::ItemView::Message { id, role, content, end_turn, phase } => if role
            != "assistant"@ {
            Err(about_message(index, " does not reference an assistant message"@))
        } else if output_at(content, line) is None {
            Err(no_line(index, line))
        } else {
            match read_content(content, line, offset) {
                None => Err(no_byte(index, line, offset)),
                Some(content) => Ok(
                    rollout::ItemView::Message { id, role, content, end_turn, phase },
                ),
            }
        },
    }
}

/// What a cut message is.
pub open spec fn item_result(cut: Result<ResponseItem, InvalidRequest>) -> Result<
    rollout::ItemView,
    Seq<char>,
> {
    match cut {
        Ok(item) => Ok(item@),
        Err(request) => Err(request.message@),
    }
}

/// The end of the character that covers a byte offset of a text.
pub fn inclusive_char_boundary(text: &str, source_byte_offset: usize) -> (end: Result<
    usize,
    InvalidRequest,
>)
    ensures
        match end {
            Ok(end) => {
                &&& source_byte_offset < text::byte_len(text@)
                &&& end == text::char_end(text@, source_byte_offset as int)
            },
            Err(request) => {
                &&& source_byte_offset >= text::byte_len(text@)
                &&& request.message@ == "byte offset "@ + strings::decimal(
                    source_byte_offset as nat,
                ) + " is not within assistant text content"@
            },
        },
{
    let total: usize = byte_count(text);
    if source_byte_offset >= total {
        let mut message = "byte offset ".to_owned();
        push_decimal(&mut message, source_byte_offset as u64);
        message.append(" is not within assistant text content");
        return invalid(message);
    }
    let chars = to_chars(text);
    let found = locate_char(&chars, total, source_byte_offset);
    proof {
        text::lemma_char_index(text@, source_byte_offset as int);
        text::lemma_byte_pos_step(text@, found.0 as int);
        text::lemma_byte_pos_grows(text@, found.0 as int + 1, text@.len() as int);
    }
    Ok(found.1 + width_of(chars[found.0]))
}

proof fn lemma_output_at(content: Seq<rollout::ContentView>, number: int)
    requires
        0 <= number,
    ensures
        output_at(content, number) is Some <==> number < outputs(content).len(),
        match output_at(content, number) {
            Some(index) => {
                &&& 0 <= index < content.len()
                &&& content[index] == rollout::ContentView::OutputText(outputs(content)[number])
                &&& outputs(content.take(index)) == outputs(content).take(number)
            },
            None => true,
        },
    decreases content.len(),
{
    if content.len() > 0 {
        let head = content.drop_last();
        lemma_output_at(head, number);
        match output_at(content, number) {
            Some(index) => {
                if index < head.len() {
                    assert(content.take(index) =~= head.take(index));
                    assert(outputs(content).take(number) =~= outputs(head).take(number));
                } else {
                    assert(content.take(index) =~= head);
                    assert(outputs(content).take(number) =~= outputs(head));
                }
            },
            None => {},
        }
    }
}

/// What is read of a message are its output texts before the anchored one, and that one
/// up to and including the anchored byte.
pub proof fn law_read_message_keeps_the_read_text(
    content: Seq<rollout::ContentView>,
    line: int,
    offset: int,
)
    requires
        0 <= line < outputs(content).len(),
        0 <= offset < text::byte_len(outputs(content)[line]),
    ensures
        match read_content(content, line, offset) {
            Some(kept) => {
                &&& outputs(kept) == outputs(content).take(line).push(
                    read_text(outputs(content)[line], offset),
                )
                &&& kept.drop_last().is_prefix_of(content)
                &&& read_text(outputs(content)[line], offset).is_prefix_of(outputs(content)[line])
                &&& text::byte_len(read_text(outputs(content)[line], offset)) == text::char_end(
                    outputs(content)[line],
                    offset,
                )
            },
            None => false,
        },
{
    lemma_output_at(content, line);
    let index = output_at(content, line)->0;
    let whole = outputs(content)[line];
    let kept = read_content(content, line, offset)->0;
    assert(kept.drop_last() =~= content.take(index));
    text::lemma_char_index(whole, offset);
    assert(read_text(whole, offset) =~= whole.take(read_text(whole, offset).len() as int));
}

/// A text up to a boundary.
fn text_before(text: &str, end: usize) -> (head: String)
    ensures
        head@ == text@.take(text::char_index(text@, end as int)),
{
    let chars = to_chars(text);
    let index: usize = locate_char(&chars, byte_count(text), end).0;
    proof {
        text::lemma_char_index(text@, end as int);
    }
    let head = to_text(&chars, 0, index);
    assert(head@ =~= text@.take(index as int));
    head
}

/// A message of the assistant up to and including a byte of one of its output texts.
pub fn truncate_assistant_message(
    item: &ResponseItem,
    source_line_index: usize,
    source_byte_offset: usize,
    assistant_message_index: usize,
) -> (cut: Result<ResponseItem, InvalidRequest>)
    ensures
        item_result(cut) == read_message(
            item@,
            source_line_index as int,
            source_byte_offset as int,
            assistant_message_index as int,
        ),
{
    let (id, role, content, end_turn, phase) = match item {
        ResponseItem::Message { id, role, content, end_turn, phase } => (
            id,
            role,
            content,
            end_turn,
            phase,
        ),
        ResponseItem::Other { .. } => return invalid(
            complain(assistant_message_index, " does not reference a message"),
        ),
    };
    if !same_text(role.as_str(), "assistant") {
        return invalid(
            complain(assistant_message_index, " does not reference an assistant message"),
        );
    }
    let ghost pieces = rollout::content_views(content@);
    let mut output_text_count: usize = 0;
    let mut truncated_content: Vec<ContentItem> = Vec::new();
    let mut index: usize = 0;
    assert(pieces.take(0) =~= Seq::<rollout::ContentView>::empty());
    assert(rollout::content_views(truncated_content@) =~= pieces.take(0));
    while index < content.len()
        invariant
            index <= content@.len(),
            item@ == (rollout::ItemView::Message {
                id: strings::opt_text(*id),
                role: role@,
                content: pieces,
                end_turn: *end_turn,
                phase: *phase,
            }),
            role@ == "assistant"@,
            pieces == rollout::content_views(content@),
            rollout::content_views(truncated_content@) == pieces.take(index as int),
            output_text_count <= index,
            output_text_count == outputs(pieces.take(index as int)).len(),
            output_text_count <= source_line_index,
            output_at(pieces.take(index as int), source_line_index as int) is None,
        decreases content@.len() - index,
    {
        let ghost taken = pieces.take(index as int + 1);
        let ghost old_content = rollout::content_views(truncated_content@);
        assert(taken.drop_last() =~= pieces.take(index as int));
        assert(taken.last() == content@[index as int]@);
        if let ContentItem::OutputText { text } = &content[index] {
            if output_text_count == source_line_index {
                proof {
                    lemma_output_stays(pieces, index as int + 1, source_line_index as int);
                }
                if source_byte_offset >= byte_count(text.as_str()) {
                    let mut message = complain(assistant_message_index, " has no byte offset ");
                    push_decimal(&mut message, source_byte_offset as u64);
                    message.append(" on line ");
                    push_decimal(&mut message, source_line_index as u64);
                    return invalid(message);
                }
                let cutoff: usize = match inclusive_char_boundary(
                    text.as_str(),
                    source_byte_offset,
                ) {
                    Ok(cutoff) => cutoff,
                    Err(request) => return Err(request),
                };
                let head = text_before(text.as_str(), cutoff);
                proof {
                    text::lemma_char_index(text@, source_byte_offset as int);
                    text::lemma_char_index_of_pos(
                        text@,
                        text::char_index(text@, source_byte_offset as int) + 1,
                    );
                }
                truncated_content.push(ContentItem::OutputText { text: head });
                proof {
                    assert(rollout::content_views(truncated_content@) =~= old_content.push(
                        rollout::ContentView::OutputText(
                            read_text(text@, source_byte_offset as int),
                        ),
                    ));
                }
                return Ok(
                    ResponseItem::Message {
                        id: copy_optional(id),
                        role: role.clone(),
                        content: truncated_content,
                        end_turn: *end_turn,
                        phase: *phase,
                    },
                );
            }
            output_text_count = output_text_count + 1;
        }
        truncated_content.push(content[index].copy());
        assert(rollout::content_views(truncated_content@) =~= old_content.push(taken.last()));
        assert(rollout::content_views(truncated_content@) =~= taken);
        index = index + 1;
    }
    assert(pieces.take(content@.len() as int) =~= pieces);
    let mut message = complain(assistant_message_index, " has no source line ");
    push_decimal(&mut message, source_line_index as u64);
    invalid(message)
}

proof fn lemma_output_stays(content: Seq<rollout::ContentView>, count: int, number: int)
    requires
        0 <= count <= content.len(),
        output_at(content.take(count), number) is Some,
    ensures
        output_at(content, number) == output_at(content.take(count), number),
    decreases content.len(),
{
    if count == content.len() {
        assert(content.take(count) =~= content);
    } else {
        assert(content.drop_last().take(count) =~= content.take(count));
        lemma_output_stays(content.drop_last(), count, number);
    }
}

// ---------------------------------------------------------------------------
// Cutting a rollout
// ---------------------------------------------------------------------------
/// The note that stands behind the cut message.
pub open spec fn branch_note() -> rollout::ItemView {
    rollout::ItemView::Message {
        id: None,
        role: "developer"@,
        content: seq![rollout::ContentView::InputText(BRANCH_NOTE@)],
        end_turn: None,
        phase: None,
    }
}

/// A rollout cut at a byte of an assistant message, counted from the first one that is
/// left.
pub open spec fn read_rollout(
    items: Seq<rollout::EntryView>,
    index: int,
    line: int,
    offset: int,
) -> Result<Seq<rollout::RecordView>, Seq<char>> {
    let positions = rollout::marked_positions(items, rollout::assistant_messages());
    if index >= positions.len() {
        Err(about_message(index, " is out of range"@))
    } else {
        match read_message(items[positions[index]].record->ResponseItem_0, line, offset, index) {
            Err(message) => Err(message),
            Ok(message) => Ok(
                rollout::records(items).take(positions[index]).push(
                    rollout::RecordView::ResponseItem(message),
                ).push(rollout::RecordView::ResponseItem(branch_note())),
            ),
        }
    }
}

/// A rollout cut at a byte of the latest assistant message that is left.
pub open spec fn read_rollout_latest(
    items: Seq<rollout::EntryView>,
    line: int,
    offset: int,
) -> Result<Seq<rollout::RecordView>, Seq<char>> {
    let positions = rollout::marked_positions(items, rollout::assistant_messages());
    if positions.len() == 0 {
        Err("latest assistant read anchor requires an assistant message"@)
    } else {
        read_rollout(items, positions.len() - 1, line, offset)
    }
}

/// What a cut rollout is.
pub open spec fn rollout_result(cut: Result<Vec<RolloutItem>, InvalidRequest>) -> Result<
    Seq<rollout::RecordView>,
    Seq<char>,
> {
    match cut {
        Ok(items) => Ok(rollout::record_views(items@)),
        Err(request) => Err(request.message@),
    }
}

/// The note that stands behind the cut message.
pub fn branch_interruption_note() -> (note: ResponseItem)
    ensures
        note@ == branch_note(),
{
    let mut content: Vec<ContentItem> = Vec::new();
    content.push(ContentItem::InputText { text: BRANCH_NOTE.to_owned() });
    assert(rollout::content_views(content@) =~= seq![
        rollout::ContentView::InputText(BRANCH_NOTE@),
    ]);
    ResponseItem::Message {
        id: None,
        role: "developer".to_owned(),
        content,
        end_turn: None,
        phase: None,
    }
}

/// A rollout cut at a byte of an assistant message.
pub fn truncate_rollout_at_assistant_read_anchor(
    items: &[RolloutEntry],
    assistant_message_index: usize,
    source_line_index: usize,
    source_byte_offset: usize,
) -> (cut: Result<Vec<RolloutItem>, InvalidRequest>)
    ensures
        rollout_result(cut) == read_rollout(
            rollout::entry_views(items@),
            assistant_message_index as int,
            source_line_index as int,
            source_byte_offset as int,
        ),
{
    let ghost all = rollout::entry_views(items@);
    let positions = assistant_message_positions_in_rollout(items);
    proof {
        rollout::law_marked_positions(all, rollout::assistant_messages());
        assert(rollout::as_ints(positions@).len() == positions@.len());
    }
    if assistant_message_index >= positions.len() {
        return invalid(complain(assistant_message_index, " is out of range"));
    }
    let message_index: usize = positions[assistant_message_index];
    assert(rollout::as_ints(positions@)[assistant_message_index as int] == message_index);
    assert(rollout::assistant_messages()(all[message_index as int]));
    let item = match &items[message_index].item {
        RolloutItem::ResponseItem(item) => item,
        _ => {
            let mut message = "rollout item at assistant message index ".to_owned();
            push_decimal(&mut message, assistant_message_index as u64);
            message.append(" is not a response item");
            return invalid(message);
        },
    };
    let truncated_message = match truncate_assistant_message(
        item,
        source_line_index,
        source_byte_offset,
        assistant_message_index,
    ) {
        Ok(message) => message,
        Err(request) => return Err(request),
    };
    let mut prefix = rollout::copy_records(items, 0, message_index);
    let ghost head = rollout::record_views(prefix@);
    assert(head =~= rollout::records(all).take(message_index as int));
    let ghost message = truncated_message@;
    prefix.push(RolloutItem::ResponseItem(truncated_message));
    assert(rollout::record_views(prefix@) =~= head.push(
        rollout::RecordView::ResponseItem(message),
    ));
    let ghost cut = rollout::record_views(prefix@);
    prefix.push(RolloutItem::ResponseItem(branch_interruption_note()));
    assert(rollout::record_views(prefix@) =~= cut.push(
        rollout::RecordView::ResponseItem(branch_note()),
    ));
    Ok(prefix)
}

/// A rollout cut at a byte of its latest assistant message.
pub fn truncate_rollout_at_latest_assistant_read_anchor(
    items: &[RolloutEntry],
    source_line_index: usize,
    source_byte_offset: usize,
) -> (cut: Result<Vec<RolloutItem>, InvalidRequest>)
    ensures
        rollout_result(cut) == read_rollout_latest(
            rollout::entry_views(items@),
            source_line_index as int,
            source_byte_offset as int,
        ),
{
    let positions = assistant_message_positions_in_rollout(items);
    assert(rollout::as_ints(positions@).len() == positions@.len());
    if positions.len() == 0 {
        return invalid("latest assistant read anchor requires an assistant message".to_owned());
    }
    truncate_rollout_at_assistant_read_anchor(
        items,
        positions.len() - 1,
        source_line_index,
        source_byte_offset,
    )
}

// ---------------------------------------------------------------------------
// What is read and what is refused
// ---------------------------------------------------------------------------
/// What is read of a text ends with the character under the anchor.
pub proof fn law_reading_ends_with_the_anchor(source: Seq<char>, at: int, offset: int)
    requires
        0 <= at < source.len(),
        text::byte_pos(source, at) <= offset < text::byte_pos(source, at + 1),
    ensures
        read_text(source, offset) == source.take(at + 1),
        read_text(source, offset).last() == source[at],
{
    text::lemma_char_index_unique(source, offset, at);
}

/// The output texts of a message are those pieces of its content, in order.
pub proof fn law_output_texts_are_counted(
    content: Seq<rollout::ContentView>,
    piece: rollout::ContentView,
)
    ensures
        outputs(Seq::<rollout::ContentView>::empty()).len() == 0,
        match piece {
            rollout::ContentView::OutputText(text) => outputs(content.push(piece)) == outputs(
                content,
            ).push(text),
            rollout::ContentView::InputText(_) => outputs(content.push(piece)) == outputs(content),
            rollout::ContentView::Other(_) => outputs(content.push(piece)) == outputs(content),
        },
{
    assert(content.push(piece).drop_last() =~= content);
}

proof fn lemma_known_output(content: Seq<rollout::ContentView>, number: int)
    requires
        0 <= number,
    ensures
        output_at(content, number) is Some <==> number < outputs(content).len(),
        output_at(content, number) matches Some(index) ==> 0 <= index < content.len()
            && content[index] == rollout::ContentView::OutputText(outputs(content)[number]),
    decreases content.len(),
{
    if content.len() > 0 {
        lemma_known_output(content.drop_last(), number);
    }
}

/// A read point is refused, by name, where its record is no message, where the message is
/// not the assistant's, where it has no such output text, and where that text has no such
/// byte. Anywhere else the message is kept with everything but its content unchanged.
pub proof fn law_refused_read_points(
    item: rollout::ItemView,
    line: int,
    offset: int,
    index: int,
)
    requires
        0 <= line,
        0 <= offset,
        0 <= index,
    ensures
        ({
            let number = strings::decimal(index as nat);
            let start = "assistant message index "@ + number;
            let result = read_message(item, line, offset, index);
            match item {
                rollout::ItemView::Other(_) => result == Err::<rollout::ItemView, Seq<char>>(
                    start + " does not reference a message"@,
                ),
                rollout::ItemView::Message { id, role, content, end_turn, phase } => {
                    if role != "assistant"@ {
                        result == Err::<rollout::ItemView, Seq<char>>(
                            start + " does not reference an assistant message"@,
                        )
                    } else if line >= outputs(content).len() {
                        result == Err::<rollout::ItemView, Seq<char>>(
                            start + " has no source line "@ + strings::decimal(line as nat),
                        )
                    } else if offset >= text::byte_len(outputs(content)[line]) {
                        result == Err::<rollout::ItemView, Seq<char>>(
                            start + " has no byte offset "@ + strings::decimal(offset as nat)
                                + " on line "@ + strings::decimal(line as nat),
                        )
                    } else {
                        &&& result matches Ok(kept)
                        &&& kept matches rollout::ItemView::Message {
                            id: kept_id,
                            role: kept_role,
                            content: kept_content,
                            end_turn: kept_end,
                            phase: kept_phase,
                        }
                        &&& kept_id == id && kept_role == role && kept_end == end_turn
                            && kept_phase == phase
                        &&& read_content(content, line, offset) == Some(kept_content)
                    }
                },
            }
        }),
{
    if let rollout::ItemView::Message { id, role, content, end_turn, phase } = item {
        lemma_known_output(content, line);
    }
}

/// Cutting at a read point keeps every record before the message, the read part of the
/// message and the note behind it; a message that is not there is refused. The latest
/// message is the last one that is left.
pub proof fn law_cut_at_a_read_point(
    items: Seq<rollout::EntryView>,
    index: int,
    line: int,
    offset: int,
)
    requires
        0 <= index,
    ensures
        ({
            let positions = rollout::marked_positions(items, rollout::assistant_messages());
            let cut = read_rollout(items, index, line, offset);
            &&& index >= positions.len() ==> cut == Err::<Seq<rollout::RecordView>, Seq<char>>(
                "assistant message index "@ + strings::decimal(index as nat)
                    + " is out of range"@,
            )
            &&& index < positions.len() ==> {
                let message = items[positions[index]].record->ResponseItem_0;
                match (cut, read_message(message, line, offset, index)) {
                    (Ok(kept), Ok(read)) => {
                        &&& kept.len() == positions[index] + 2
                        &&& forall|i: int|
                            0 <= i < positions[index] ==> #[trigger] kept[i] == items[i].record
                        &&& kept[positions[index]] == rollout::RecordView::ResponseItem(read)
                        &&& kept.last() matches rollout::RecordView::ResponseItem(note)
                        &&& note matches rollout::ItemView::Message { id, role, content, .. }
                        &&& id is None
                        &&& role == "developer"@
                        &&& content == seq![rollout::ContentView::InputText(BRANCH_NOTE@)]
                    },
                    (Err(refused), Err(message)) => refused == message,
                    _ => false,
                }
            }
            &&& positions.len() > 0 ==> read_rollout_latest(items, line, offset) == read_rollout(
                items,
                positions.len() - 1,
                line,
                offset,
            )
            &&& positions.len() == 0 ==> read_rollout_latest(items, line, offset) == Err::<
                Seq<rollout::RecordView>,
                Seq<char>,
            >("latest assistant read anchor requires an assistant message"@)
        }),
{
    rollout::law_marked_positions(items, rollout::assistant_messages());
}

} // verus!
