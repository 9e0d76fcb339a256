//! Truncating the recorded history of a thread, its rollout, at turn boundaries and at
//! read anchors.
//!
//! A rollout is a stream: a later record may roll back the turns before it. Positions are
//! those of the history that is left when every such record has been applied.
use crate::protocol::MessagePhase;
use crate::strings;
use crate::strings::{copy_optional, same_text};
use vstd::prelude::*;
use vstd::string::*;

verus! {

// ---------------------------------------------------------------------------
// Records
// ---------------------------------------------------------------------------
/// A piece of a message.
#[derive(Clone, Debug, PartialEq, Eq)]
pub enum ContentItem {
    InputText { text: String },
    OutputText { text: String },
    /// A piece that is no text, by its key.
    Other { key: u64 },
}

/// An item of the model's input or output.
#[derive(Clone, Debug, PartialEq, Eq)]
pub enum ResponseItem {
    Message {
        id: Option<String>,
        role: String,
        content: Vec<ContentItem>,
        end_turn: Option<bool>,
        phase: Option<MessagePhase>,
    },
    /// An item that is no message, by its key.
    Other { key: u64 },
}

/// A record of a rollout.
#[derive(Clone, Debug, PartialEq, Eq)]
pub enum RolloutItem {
    ResponseItem(ResponseItem),
    /// The last turns were taken out of the thread.
    ThreadRolledBack { num_turns: u32 },
    /// Any other record, by its key.
    Other { key: u64 },
}

/// What an item is shown as in a turn.
#[derive(Clone, Copy, Debug, PartialEq, Eq, Structural)]
pub enum TurnItemKind {
    UserMessage,
    AgentMessage,
    Other,
}

/// How an item is read: whether it starts a turn of instructions, what it is shown as,
/// and whether it is an envelope between agents that triggers a turn.
#[derive(Clone, Copy, Debug, PartialEq, Eq, Structural)]
pub struct ItemReading {
    pub user_turn_boundary: bool,
    pub turn_item: Option<TurnItemKind>,
    pub trigger_turn: Option<bool>,
}

/// A record with its reading.
#[derive(Clone, Debug, PartialEq, Eq)]
pub struct RolloutEntry {
    pub item: RolloutItem,
    pub reading: ItemReading,
}

/// A request that names no place in the rollout.
#[derive(Clone, Debug, PartialEq, Eq)]
pub struct InvalidRequest {
    pub message: String,
}

/// What a piece of a message holds.
pub enum ContentView {
    InputText(Seq<char>),
    OutputText(Seq<char>),
    Other(u64),
}

/// What an item holds.
pub enum ItemView {
    Message {
        id: Option<Seq<char>>,
        role: Seq<char>,
        content: Seq<ContentView>,
        end_turn: Option<bool>,
        phase: Option<MessagePhase>,
    },
    Other(u64),
}

/// What a record holds.
pub enum RecordView {
    ResponseItem(ItemView),
    ThreadRolledBack(u32),
    Other(u64),
}

/// What a record with its reading holds.
pub struct EntryView {
    pub record: RecordView,
    pub reading: ItemReading,
}

impl View for ContentItem {
    type V = ContentView;

    open spec fn view(&self) -> ContentView {
        match *self {
            ContentItem::InputText { text } => ContentView::InputText(text@),
            ContentItem::OutputText { text } => ContentView::OutputText(text@),
            ContentItem::Other { key } => ContentView::Other(key),
        }
    }
}

/// The views of the pieces of a message.
pub open spec fn content_views(content: Seq<ContentItem>) -> Seq<ContentView> {
    Seq::new(content.len(), |i: int| content[i]@)
}

impl View for ResponseItem {
    type V = ItemView;

    open spec fn view(&self) -> ItemView {
        match *self {
            ResponseItem::Message { id, role, content, end_turn, phase } => ItemView::Message {
                id: strings::opt_text(id),
                role: role@,
                content: content_views(content@),
                end_turn,
                phase,
            },
            ResponseItem::Other { key } => ItemView::Other(key),
        }
    }
}

impl View for RolloutItem {
    type V = RecordView;

    open spec fn view(&self) -> RecordView {
        match *self {
            RolloutItem::ResponseItem(item) => RecordView::ResponseItem(item@),
            RolloutItem::ThreadRolledBack { num_turns } => RecordView::ThreadRolledBack(num_turns),
            RolloutItem::Other { key } => RecordView::Other(key),
        }
    }
}

impl View for RolloutEntry {
    type V = EntryView;

    open spec fn view(&self) -> EntryView {
        EntryView { record: self.item@, reading: self.reading }
    }
}

/// The views of records with their readings.
pub open spec fn entry_views(items: Seq<RolloutEntry>) -> Seq<EntryView> {
    Seq::new(items.len(), |i: int| items[i]@)
}

/// The views of records.
pub open spec fn record_views(items: Seq<RolloutItem>) -> Seq<RecordView> {
    Seq::new(items.len(), |i: int| items[i]@)
}

/// The records of entries.
pub open spec fn records(items: Seq<EntryView>) -> Seq<RecordView> {
    Seq::new(items.len(), |i: int| items[i].record)
}

impl ContentItem {
    /// A copy of this piece.
    pub fn copy(&self) -> (piece: ContentItem)
        ensures
            piece@ == self@,
    {
        match self {
            ContentItem::InputText { text } => ContentItem::InputText { text: text.clone() },
            ContentItem::OutputText { text } => ContentItem::OutputText { text: text.clone() },
            ContentItem::Other { key } => ContentItem::Other { key: *key },
        }
    }
}

/// A copy of the first pieces of a message.
fn copy_content(content: &[ContentItem], count: usize) -> (copy: Vec<ContentItem>)
    requires
        count <= content@.len(),
    ensures
        content_views(copy@) == content_views(content@).take(count as int),
{
    let mut copy: Vec<ContentItem> = Vec::new();
    let mut index: usize = 0;
    while index < count
        invariant
            index <= count <= content@.len(),
            content_views(copy@) =~= content_views(content@).take(index as int),
        decreases count - index,
    {
        let ghost before = content_views(copy@);
        copy.push(content[index].copy());
        assert(content_views(copy@) =~= before.push(content@[index as int]@));
        index = index + 1;
    }
    copy
}

impl ResponseItem {
    /// A copy of this item.
    pub fn copy(&self) -> (item: ResponseItem)
        ensures
            item@ == self@,
    {
        match self {
            ResponseItem::Message { id, role, content, end_turn, phase } => {
                let copy = copy_content(content, content.len());
                assert(content_views(copy@) =~= content_views(content@));
                ResponseItem::Message {
                    id: copy_optional(id),
                    role: role.clone(),
                    content: copy,
                    end_turn: *end_turn,
                    phase: *phase,
                }
            },
            ResponseItem::Other { key } => ResponseItem::Other { key: *key },
        }
    }
}

impl RolloutItem {
    /// A copy of this record.
    pub fn copy(&self) -> (record: RolloutItem)
        ensures
            record@ == self@,
    {
        match self {
            RolloutItem::ResponseItem(item) => RolloutItem::ResponseItem(item.copy()),
            RolloutItem::ThreadRolledBack { num_turns } => RolloutItem::ThreadRolledBack {
                num_turns: *num_turns,
            },
            RolloutItem::Other { key } => RolloutItem::Other { key: *key },
        }
    }
}

/// A copy of the records from `start` up to `end`.
pub fn copy_records(items: &[RolloutEntry], start: usize, end: usize) -> (copy: Vec<RolloutItem>)
    requires
        start <= end <= items@.len(),
    ensures
        record_views(copy@) == records(entry_views(items@)).subrange(start as int, end as int),
{
    let mut copy: Vec<RolloutItem> = Vec::new();
    let mut index: usize = start;
    let ghost all = records(entry_views(items@));
    while index < end
        invariant
            start <= index <= end <= items@.len(),
            all == records(entry_views(items@)),
            record_views(copy@) =~= all.subrange(start as int, index as int),
        decreases end - index,
    {
        let ghost before = record_views(copy@);
        copy.push(items[index].item.copy());
        assert(entry_views(items@)[index as int] == items@[index as int]@);
        assert(record_views(copy@) =~= before.push(all[index as int]));
        index = index + 1;
    }
    copy
}

// ---------------------------------------------------------------------------
// Positions
// ---------------------------------------------------------------------------
/// Whether a record starts a turn of instructions.
pub open spec fn starts_turn(entry: EntryView) -> bool {
    entry.record is ResponseItem && entry.reading.user_turn_boundary
}

/// Whether a record is a message of the user.
pub open spec fn is_user_message(entry: EntryView) -> bool {
    &&& entry.record matches RecordView::ResponseItem(item)
    &&& item is Message
    &&& entry.reading.turn_item == Some(TurnItemKind::UserMessage)
}

/// Whether an item is shown as a message of the user.
pub open spec fn shown_as_user_message(reading: ItemReading) -> bool {
    reading.turn_item == Some(TurnItemKind::UserMessage)
}

/// Whether an item is an envelope of the assistant that triggers a turn.
pub open spec fn triggers_turn(item: ItemView, reading: ItemReading) -> bool {
    match item {
        ItemView::Message { role, .. } => role == "assistant"@ && reading.trigger_turn == Some(
            true,
        ),
        ItemView::Other(_) => false,
    }
}

/// Whether a record is a turn from which a fork can keep on.
pub open spec fn starts_fork_turn(entry: EntryView) -> bool {
    match entry.record {
        RecordView::ResponseItem(item) => shown_as_user_message(entry.reading) || triggers_turn(
            item,
            entry.reading,
        ),
        _ => false,
    }
}

/// Whether a record is shown as a message of the assistant.
pub open spec fn is_assistant_message(entry: EntryView) -> bool {
    entry.record is ResponseItem && entry.reading.turn_item == Some(TurnItemKind::AgentMessage)
}

/// The number of elements that are left when some are taken off the end.
pub open spec fn left(count: int, removed: int) -> int {
    if removed <= count {
        count - removed
    } else {
        0
    }
}

/// The positions of the user messages that are left. Rolling back takes as many of them
/// off the end.
pub open spec fn user_positions(items: Seq<EntryView>) -> Seq<int>
    decreases items.len(),
{
    if items.len() == 0 {
        Seq::<int>::empty()
    } else {
        let head = user_positions(items.drop_last());
        match items.last().record {
            RecordView::ThreadRolledBack(turns) => head.take(left(head.len() as int, turns as int)),
            _ => if is_user_message(items.last()) {
                head.push(items.len() - 1)
            } else {
                head
            },
        }
    }
}

/// The positions of the turns of instructions that are left.
pub open spec fn turn_positions(items: Seq<EntryView>) -> Seq<int>
    decreases items.len(),
{
    if items.len() == 0 {
        Seq::<int>::empty()
    } else {
        let head = turn_positions(items.drop_last());
        match items.last().record {
            RecordView::ThreadRolledBack(turns) => head.take(left(head.len() as int, turns as int)),
            _ => if starts_turn(items.last()) {
                head.push(items.len() - 1)
            } else {
                head
            },
        }
    }
}

/// The position from which rolling back some turns takes everything away: the earliest of
/// these turns.
pub open spec fn rolled_back_from(turns: Seq<int>, count: int) -> Option<int> {
    if count == 0 || turns.len() == 0 {
        None
    } else {
        Some(turns[left(turns.len() as int, count)])
    }
}

/// Whether a position lies before another.
pub open spec fn before(end: int) -> spec_fn(int) -> bool {
    |position: int| position < end
}

/// The positions of the marked records that are left. Rolling back takes away those that
/// stand in one of the turns.
pub open spec fn marked_positions(
    items: Seq<EntryView>,
    marked: spec_fn(EntryView) -> bool,
) -> Seq<int>
    decreases items.len(),
{
    if items.len() == 0 {
        Seq::<int>::empty()
    } else {
        let head = marked_positions(items.drop_last(), marked);
        match items.last().record {
            RecordView::ThreadRolledBack(count) => match rolled_back_from(
                turn_positions(items.drop_last()),
                count as int,
            ) {
                Some(start) => head.filter(before(start)),
                None => head,
            },
            _ => if marked(items.last()) {
                head.push(items.len() - 1)
            } else {
                head
            },
        }
    }
}

/// The marks of fork turns.
pub open spec fn fork_turns() -> spec_fn(EntryView) -> bool {
    |entry: EntryView| starts_fork_turn(entry)
}

/// The marks of assistant messages.
pub open spec fn assistant_messages() -> spec_fn(EntryView) -> bool {
    |entry: EntryView| is_assistant_message(entry)
}

/// The views of positions.
pub open spec fn as_ints(positions: Seq<usize>) -> Seq<int> {
    Seq::new(positions.len(), |i: int| positions[i] as int)
}

/// Whether an item is shown as a message of the user.
pub fn is_real_user_message_boundary(reading: &ItemReading) -> (yes: bool)
    ensures
        yes == shown_as_user_message(*reading),
{
    match reading.turn_item {
        Some(TurnItemKind::UserMessage) => true,
        _ => false,
    }
}

/// Whether an item is an envelope of the assistant that triggers a turn.
pub fn is_trigger_turn_boundary(item: &ResponseItem, reading: &ItemReading) -> (yes: bool)
    ensures
        yes == triggers_turn(item@, *reading),
{
    match item {
        ResponseItem::Message { role, .. } => same_text(role.as_str(), "assistant")
            && match reading.trigger_turn {
            Some(trigger_turn) => trigger_turn,
            None => false,
        },
        ResponseItem::Other { .. } => false,
    }
}

/// Whether a record starts a turn of instructions.
pub fn rollout_item_is_user_turn_boundary(entry: &RolloutEntry) -> (yes: bool)
    ensures
        yes == starts_turn(entry@),
{
    match &entry.item {
        RolloutItem::ResponseItem(_) => entry.reading.user_turn_boundary,
        _ => false,
    }
}

/// Whether a history holds a turn of instructions already.
pub fn initial_history_has_prior_user_turns(items: &[RolloutEntry]) -> (yes: bool)
    ensures
        yes == exists|i: int| 0 <= i < items@.len() && starts_turn((#[trigger] items@[i])@),
{
    let mut index: usize = 0;
    while index < items.len()
        invariant
            index <= items@.len(),
            forall|i: int| 0 <= i < index ==> !starts_turn((#[trigger] items@[i])@),
        decreases items@.len() - index,
    {
        if rollout_item_is_user_turn_boundary(&items[index]) {
            assert(starts_turn(items@[index as int]@));
            return true;
        }
        index = index + 1;
    }
    false
}

/// Takes some elements off the end of a list.
fn take_off(positions: &mut Vec<usize>, num_turns: u32)
    ensures
        as_ints(final(positions)@) == as_ints(old(positions)@).take(
            left(old(positions)@.len() as int, num_turns as int),
        ),
{
    let count: usize = positions.len();
    let new_len: usize = if num_turns as usize <= count {
        count - num_turns as usize
    } else {
        0
    };
    positions.truncate(new_len);
    assert(as_ints(positions@) =~= as_ints(old(positions)@).take(new_len as int));
}

/// The indices of the user messages of a rollout that are left.
pub fn user_message_positions_in_rollout(items: &[RolloutEntry]) -> (positions: Vec<usize>)
    ensures
        as_ints(positions@) == user_positions(entry_views(items@)),
{
    let ghost all = entry_views(items@);
    let mut positions: Vec<usize> = Vec::new();
    let mut index: usize = 0;
    assert(all.take(0) =~= Seq::<EntryView>::empty());
    assert(as_ints(positions@) =~= Seq::<int>::empty());
    while index < items.len()
        invariant
            index <= items@.len(),
            all == entry_views(items@),
            as_ints(positions@) == user_positions(all.take(index as int)),
        decreases items@.len() - index,
    {
        let ghost taken = all.take(index as int + 1);
        let ghost old_positions = as_ints(positions@);
        assert(taken.drop_last() =~= all.take(index as int));
        assert(taken.last() == items@[index as int]@);
        match &items[index].item {
            RolloutItem::ResponseItem(ResponseItem::Message { .. }) => {
                if is_real_user_message_boundary(&items[index].reading) {
                    positions.push(index);
                    assert(as_ints(positions@) =~= old_positions.push(index as int));
                }
            },
            RolloutItem::ThreadRolledBack { num_turns } => {
                take_off(&mut positions, *num_turns);
            },
            _ => {},
        }
        index = index + 1;
    }
    assert(all.take(items@.len() as int) =~= all);
    positions
}

/// The position from which rolling back some turns takes everything away.
fn rollback_start(turns: &[usize], num_turns: u32) -> (start: Option<usize>)
    ensures
        match start {
            Some(start) => rolled_back_from(as_ints(turns@), num_turns as int) == Some(
                start as int,
            ),
            None => rolled_back_from(as_ints(turns@), num_turns as int) is None,
        },
{
    if num_turns == 0 || turns.len() == 0 {
        return None;
    }
    let count: usize = num_turns as usize;
    let first: usize = if count <= turns.len() {
        turns.len() - count
    } else {
        0
    };
    assert(as_ints(turns@)[first as int] == turns@[first as int]);
    Some(turns[first])
}

/// Keeps the positions before another.
fn retain_before(positions: &Vec<usize>, end: usize) -> (kept: Vec<usize>)
    ensures
        as_ints(kept@) == as_ints(positions@).filter(before(end as int)),
{
    let ghost all = as_ints(positions@);
    let mut kept: Vec<usize> = Vec::new();
    let mut index: usize = 0;
    proof {
        reveal(Seq::filter);
        assert(all.take(0) =~= Seq::<int>::empty());
        assert(as_ints(kept@) =~= all.take(0).filter(before(end as int)));
    }
    while index < positions.len()
        invariant
            index <= positions@.len(),
            all == as_ints(positions@),
            as_ints(kept@) == all.take(index as int).filter(before(end as int)),
        decreases positions@.len() - index,
    {
        let ghost old_kept = as_ints(kept@);
        proof {
            reveal(Seq::filter);
            assert(all.take(index as int + 1).drop_last() =~= all.take(index as int));
            assert(all.take(index as int + 1).last() == all[index as int]);
        }
        if positions[index] < end {
            kept.push(positions[index]);
            assert(as_ints(kept@) =~= old_kept.push(all[index as int]));
        }
        index = index + 1;
    }
    assert(all.take(positions@.len() as int) =~= all);
    kept
}

/// Whether the marked positions and the turns of the first records are known.
spec fn known(
    items: Seq<EntryView>,
    marked: spec_fn(EntryView) -> bool,
    turns: Seq<usize>,
    positions: Seq<usize>,
) -> bool {
    &&& as_ints(turns) == turn_positions(items)
    &&& as_ints(positions) == marked_positions(items, marked)
}

/// Applies the rolling back of some turns.
fn roll_back(turns: &mut Vec<usize>, positions: &mut Vec<usize>, num_turns: u32)
    ensures
        as_ints(final(turns)@) == as_ints(old(turns)@).take(
            left(old(turns)@.len() as int, num_turns as int),
        ),
        as_ints(final(positions)@) == match rolled_back_from(
            as_ints(old(turns)@),
            num_turns as int,
        ) {
            Some(start) => as_ints(old(positions)@).filter(before(start)),
            None => as_ints(old(positions)@),
        },
{
    if let Some(start) = rollback_start(turns, num_turns) {
        take_off(turns, num_turns);
        *positions = retain_before(positions, start);
    } else {
        assert(as_ints(turns@) =~= as_ints(turns@).take(
            left(turns@.len() as int, num_turns as int),
        ));
    }
}

/// The indices of the fork turns of a rollout that are left: messages of the user, and
/// envelopes of the assistant that trigger a turn.
pub fn fork_turn_positions_in_rollout(items: &[RolloutEntry]) -> (positions: Vec<usize>)
    ensures
        as_ints(positions@) == marked_positions(entry_views(items@), fork_turns()),
{
    let ghost all = entry_views(items@);
    let mut rollback_turn_positions: Vec<usize> = Vec::new();
    let mut fork_turn_positions: Vec<usize> = Vec::new();
    let mut index: usize = 0;
    assert(all.take(0) =~= Seq::<EntryView>::empty());
    assert(as_ints(rollback_turn_positions@) =~= Seq::<int>::empty());
    assert(as_ints(fork_turn_positions@) =~= Seq::<int>::empty());
    while index < items.len()
        invariant
            index <= items@.len(),
            all == entry_views(items@),
            known(
                all.take(index as int),
                fork_turns(),
                rollback_turn_positions@,
                fork_turn_positions@,
            ),
        decreases items@.len() - index,
    {
        let ghost taken = all.take(index as int + 1);
        let ghost old_turns = as_ints(rollback_turn_positions@);
        let ghost old_positions = as_ints(fork_turn_positions@);
        assert(taken.drop_last() =~= all.take(index as int));
        assert(taken.last() == items@[index as int]@);
        match &items[index].item {
            RolloutItem::ResponseItem(item) => {
                if items[index].reading.user_turn_boundary {
                    rollback_turn_positions.push(index);
                    assert(as_ints(rollback_turn_positions@) =~= old_turns.push(index as int));
                }
                if is_real_user_message_boundary(&items[index].reading)
                    || is_trigger_turn_boundary(item, &items[index].reading) {
                    fork_turn_positions.push(index);
                    assert(as_ints(fork_turn_positions@) =~= old_positions.push(index as int));
                }
            },
            RolloutItem::ThreadRolledBack { num_turns } => {
                roll_back(&mut rollback_turn_positions, &mut fork_turn_positions, *num_turns);
            },
            RolloutItem::Other { .. } => {},
        }
        index = index + 1;
    }
    assert(all.take(items@.len() as int) =~= all);
    fork_turn_positions
}

/// The indices of the assistant messages of a rollout that are left.
pub fn assistant_message_positions_in_rollout(items: &[RolloutEntry]) -> (positions: Vec<usize>)
    ensures
        as_ints(positions@) == marked_positions(entry_views(items@), assistant_messages()),
{
    let ghost all = entry_views(items@);
    let mut rollback_turn_positions: Vec<usize> = Vec::new();
    let mut assistant_positions: Vec<usize> = Vec::new();
    let mut index: usize = 0;
    assert(all.take(0) =~= Seq::<EntryView>::empty());
    assert(as_ints(rollback_turn_positions@) =~= Seq::<int>::empty());
    assert(as_ints(assistant_positions@) =~= Seq::<int>::empty());
    while index < items.len()
        invariant
            index <= items@.len(),
            all == entry_views(items@),
            known(
                all.take(index as int),
                assistant_messages(),
                rollback_turn_positions@,
                assistant_positions@,
            ),
        decreases items@.len() - index,
    {
        let ghost taken = all.take(index as int + 1);
        let ghost old_turns = as_ints(rollback_turn_positions@);
        let ghost old_positions = as_ints(assistant_positions@);
        assert(taken.drop_last() =~= all.take(index as int));
        assert(taken.last() == items@[index as int]@);
        match &items[index].item {
            RolloutItem::ResponseItem(_) => {
                if items[index].reading.user_turn_boundary {
                    rollback_turn_positions.push(index);
                    assert(as_ints(rollback_turn_positions@) =~= old_turns.push(index as int));
                }
                let shown_as_agent_message = match items[index].reading.turn_item {
                    Some(TurnItemKind::AgentMessage) => true,
                    _ => false,
                };
                if shown_as_agent_message {
                    assistant_positions.push(index);
                    assert(as_ints(assistant_positions@) =~= old_positions.push(index as int));
                }
            },
            RolloutItem::ThreadRolledBack { num_turns } => {
                roll_back(&mut rollback_turn_positions, &mut assistant_positions, *num_turns);
            },
            RolloutItem::Other { .. } => {},
        }
        index = index + 1;
    }
    assert(all.take(items@.len() as int) =~= all);
    assistant_positions
}

// ---------------------------------------------------------------------------
// Cutting at turns
// ---------------------------------------------------------------------------
/// The records before a user message, counted from the first one that is left; all
/// records where there is none of that number.
pub open spec fn before_user_message(items: Seq<EntryView>, number: int) -> Seq<RecordView> {
    let positions = user_positions(items);
    if number < positions.len() {
        records(items).take(positions[number])
    } else {
        records(items)
    }
}

/// The records from a fork turn, counted from the last one that is left; all records
/// where there are not more, and none where no turn is asked for of some.
pub open spec fn last_fork_turns(items: Seq<EntryView>, number: int) -> Seq<RecordView> {
    let positions = marked_positions(items, fork_turns());
    if positions.len() <= number {
        records(items)
    } else if number == 0 {
        Seq::<RecordView>::empty()
    } else {
        records(items).skip(positions[positions.len() - number])
    }
}

/// The records before a user message, counted from the first one.
pub fn truncate_rollout_before_nth_user_message_from_start(
    items: &[RolloutEntry],
    n_from_start: usize,
) -> (kept: Vec<RolloutItem>)
    ensures
        record_views(kept@) == before_user_message(entry_views(items@), n_from_start as int),
{
    let positions = user_message_positions_in_rollout(items);
    let ghost all = entry_views(items@);
    proof {
        law_user_positions(all);
        assert(as_ints(positions@).len() == positions@.len());
    }
    if positions.len() <= n_from_start {
        let kept = copy_records(items, 0, items.len());
        assert(record_views(kept@) =~= records(all));
        return kept;
    }
    let cut_index: usize = positions[n_from_start];
    assert(as_ints(positions@)[n_from_start as int] == cut_index);
    let kept = copy_records(items, 0, cut_index);
    assert(record_views(kept@) =~= records(all).take(cut_index as int));
    kept
}

/// The records from a fork turn, counted from the last one.
pub fn truncate_rollout_to_last_n_fork_turns(
    items: &[RolloutEntry],
    n_from_end: usize,
) -> (kept: Vec<RolloutItem>)
    ensures
        record_views(kept@) == last_fork_turns(entry_views(items@), n_from_end as int),
{
    let ghost all = entry_views(items@);
    let positions = fork_turn_positions_in_rollout(items);
    proof {
        law_marked_positions(all, fork_turns());
        assert(as_ints(positions@).len() == positions@.len());
    }
    if positions.len() <= n_from_end {
        let kept = copy_records(items, 0, items.len());
        assert(record_views(kept@) =~= records(all));
        return kept;
    }
    if n_from_end == 0 {
        let kept: Vec<RolloutItem> = Vec::new();
        assert(record_views(kept@) =~= Seq::<RecordView>::empty());
        return kept;
    }
    let keep_index: usize = positions[positions.len() - n_from_end];
    assert(as_ints(positions@)[positions@.len() - n_from_end] == keep_index);
    let kept = copy_records(items, keep_index, items.len());
    assert(record_views(kept@) =~= records(all).skip(keep_index as int));
    kept
}

/// Whether positions grow strictly and lie before an end.
pub open spec fn ascending(positions: Seq<int>, end: int) -> bool {
    &&& forall|i: int| 0 <= i < positions.len() ==> 0 <= #[trigger] positions[i] < end
    &&& forall|i: int, j: int|
        0 <= i < j < positions.len() ==> #[trigger] positions[i] < #[trigger] positions[j]
}

/// The positions of user messages grow strictly, lie in the rollout and hold user
/// messages, and the records before one of them hold the user messages before it and no
/// others.
pub proof fn law_user_positions(items: Seq<EntryView>)
    ensures
        ascending(user_positions(items), items.len() as int),
        forall|i: int|
            0 <= i < user_positions(items).len() ==> is_user_message(
                items[#[trigger] user_positions(items)[i]],
            ),
        forall|i: int|
            0 <= i < user_positions(items).len() ==> user_positions(
                items.take(#[trigger] user_positions(items)[i]),
            ) == user_positions(items).take(i),
    decreases items.len(),
{
    if items.len() > 0 {
        let head = items.drop_last();
        law_user_positions(head);
        let old_positions = user_positions(head);
        let positions = user_positions(items);
        assert forall|i: int| 0 <= i < positions.len() implies is_user_message(
            items[#[trigger] positions[i]],
        ) && user_positions(items.take(positions[i])) == positions.take(i) by {
            if i < old_positions.len() {
                assert(positions[i] == old_positions[i]);
                assert(items[positions[i]] == head[old_positions[i]]);
                assert(items.take(positions[i]) =~= head.take(old_positions[i]));
                assert(positions.take(i) =~= old_positions.take(i));
            } else {
                assert(items.take(positions[i]) =~= head);
                assert(positions.take(i) =~= old_positions);
            }
        }
    }
}

proof fn lemma_turn_positions(items: Seq<EntryView>)
    ensures
        ascending(turn_positions(items), items.len() as int),
    decreases items.len(),
{
    if items.len() > 0 {
        lemma_turn_positions(items.drop_last());
    }
}

proof fn lemma_filter_ascending(positions: Seq<int>, start: int, end: int)
    requires
        ascending(positions, end),
    ensures
        ascending(positions.filter(before(start)), end),
        forall|i: int|
            0 <= i < positions.filter(before(start)).len() ==> positions.contains(
                #[trigger] positions.filter(before(start))[i],
            ) && positions.filter(before(start))[i] < start,
    decreases positions.len(),
{
    reveal(Seq::filter);
    let kept = positions.filter(before(start));
    if positions.len() > 0 {
        let head = positions.drop_last();
        lemma_filter_ascending(head, start, end);
        let old_kept = head.filter(before(start));
        assert forall|i: int| 0 <= i < kept.len() implies positions.contains(#[trigger] kept[i])
            && kept[i] < start by {
            if i < old_kept.len() {
                let j = choose|j: int| 0 <= j < head.len() && head[j] == old_kept[i];
                assert(positions[j] == kept[i]);
            } else {
                assert(positions[positions.len() - 1] == kept[i]);
            }
        }
        assert forall|i: int, j: int| 0 <= i < j < kept.len() implies #[trigger] kept[i]
            < #[trigger] kept[j] by {
            if j >= old_kept.len() {
                let k = choose|k: int| 0 <= k < head.len() && head[k] == old_kept[i];
                assert(positions[k] == kept[i]);
                assert(positions[k] < positions[positions.len() - 1]);
            }
        }
    }
}

proof fn lemma_filter_is_prefix(positions: Seq<int>, start: int, end: int)
    requires
        ascending(positions, end),
    ensures
        positions.filter(before(start)).is_prefix_of(positions),
    decreases positions.len(),
{
    reveal(Seq::filter);
    let kept = positions.filter(before(start));
    if positions.len() > 0 {
        let head = positions.drop_last();
        let old_kept = head.filter(before(start));
        assert(ascending(head, end));
        lemma_filter_is_prefix(head, start, end);
        if positions.last() < start {
            lemma_filter_everything(head, start, positions.last());
            assert(kept =~= positions);
        }
        assert(kept =~= positions.take(kept.len() as int));
    }
}

proof fn lemma_filter_everything(positions: Seq<int>, start: int, end: int)
    requires
        ascending(positions, end),
        end <= start,
    ensures
        positions.filter(before(start)) == positions,
    decreases positions.len(),
{
    reveal(Seq::filter);
    if positions.len() > 0 {
        let head = positions.drop_last();
        assert(ascending(head, end));
        lemma_filter_everything(head, start, end);
        assert(positions[positions.len() - 1] < end);
        assert(positions.filter(before(start)) =~= positions);
    } else {
        assert(positions.filter(before(start)) =~= positions);
    }
}

/// The positions of marked records grow strictly, lie in the rollout and hold marked
/// records, and the records before one of them hold the marked records before it and no
/// others.
pub proof fn law_marked_positions(items: Seq<EntryView>, marked: spec_fn(EntryView) -> bool)
    ensures
        ascending(marked_positions(items, marked), items.len() as int),
        forall|i: int|
            0 <= i < marked_positions(items, marked).len() ==> marked(
                items[#[trigger] marked_positions(items, marked)[i]],
            ),
        forall|i: int|
            0 <= i < marked_positions(items, marked).len() ==> marked_positions(
                items.take(#[trigger] marked_positions(items, marked)[i]),
                marked,
            ) == marked_positions(items, marked).take(i),
    decreases items.len(),
{
    if items.len() > 0 {
        let head = items.drop_last();
        law_marked_positions(head, marked);
        lemma_turn_positions(head);
        let old_positions = marked_positions(head, marked);
        let positions = marked_positions(items, marked);
        if let RecordView::ThreadRolledBack(count) = items.last().record {
            if let Some(start) = rolled_back_from(turn_positions(head), count as int) {
                lemma_filter_ascending(old_positions, start, head.len() as int);
                lemma_filter_is_prefix(old_positions, start, head.len() as int);
            }
        }
        assert forall|i: int| 0 <= i < positions.len() implies marked_positions(
            items.take(#[trigger] positions[i]),
            marked,
        ) == positions.take(i) by {
            if i < old_positions.len() {
                assert(positions.take(i + 1) =~= old_positions.take(i + 1));
                assert(positions.take(i + 1)[i] == old_positions.take(i + 1)[i]);
                assert(items.take(positions[i]) =~= head.take(old_positions[i]));
                assert(positions.take(i) =~= old_positions.take(i));
            } else {
                assert(items.take(positions[i]) =~= head);
                assert(positions.take(i) =~= old_positions);
            }
        }
        assert forall|i: int| 0 <= i < positions.len() implies marked(
            items[#[trigger] positions[i]],
        ) by {
            if old_positions.contains(positions[i]) {
                let j = choose|j: int|
                    0 <= j < old_positions.len() && old_positions[j] == positions[i];
                assert(items[positions[i]] == head[old_positions[j]]);
            } else if positions.len() > old_positions.len() {
                if i < old_positions.len() {
                    assert(positions[i] == old_positions[i]);
                }
            }
        }
    }
}

/// Rolling back some turns takes away the marked records that stand in one of these turns,
/// and no others.
pub proof fn law_rolled_back_turns_leave_nothing(
    items: Seq<EntryView>,
    marked: spec_fn(EntryView) -> bool,
    position: int,
)
    requires
        items.len() > 0,
        items.last().record is ThreadRolledBack,
    ensures
        marked_positions(items, marked).contains(position) <==> {
            &&& marked_positions(items.drop_last(), marked).contains(position)
            &&& match rolled_back_from(
                turn_positions(items.drop_last()),
                items.last().record->ThreadRolledBack_0 as int,
            ) {
                Some(start) => position < start,
                None => true,
            }
        },
{
    let head = items.drop_last();
    let old_positions = marked_positions(head, marked);
    if let Some(start) = rolled_back_from(
        turn_positions(head),
        items.last().record->ThreadRolledBack_0 as int,
    ) {
        law_marked_positions(head, marked);
        lemma_filter_ascending(old_positions, start, head.len() as int);
        if old_positions.contains(position) && position < start {
            let i = choose|i: int| 0 <= i < old_positions.len() && old_positions[i] == position;
            lemma_filter_keeps(old_positions, start, i);
        }
    }
}

proof fn lemma_filter_keeps(positions: Seq<int>, start: int, i: int)
    requires
        0 <= i < positions.len(),
        positions[i] < start,
    ensures
        positions.filter(before(start)).contains(positions[i]),
    decreases positions.len(),
{
    reveal(Seq::filter);
    let head = positions.drop_last();
    let kept = positions.filter(before(start));
    if i < head.len() {
        lemma_filter_keeps(head, start, i);
        let old_kept = head.filter(before(start));
        let j = choose|j: int| 0 <= j < old_kept.len() && old_kept[j] == positions[i];
        assert(kept[j] == old_kept[j]);
    } else {
        assert(kept[kept.len() - 1] == positions[i]);
    }
}

// ---------------------------------------------------------------------------
// What cutting keeps
// ---------------------------------------------------------------------------
/// Positions counted from a start.
pub open spec fn counted_from(positions: Seq<int>, start: int) -> Seq<int> {
    Seq::new(positions.len(), |i: int| positions[i] - start)
}

/// The positions at or behind a start.
spec fn from_on(positions: Seq<int>, start: int) -> Seq<int>
    decreases positions.len(),
{
    if positions.len() == 0 || positions.last() < start {
        Seq::<int>::empty()
    } else {
        from_on(positions.drop_last(), start).push(positions.last())
    }
}

proof fn lemma_from_on(positions: Seq<int>, start: int, end: int)
    requires
        ascending(positions, end),
    ensures
        from_on(positions, start).len() <= positions.len(),
        from_on(positions, start) == positions.skip(
            positions.len() - from_on(positions, start).len(),
        ),
        forall|i: int|
            0 <= i < positions.len() - from_on(positions, start).len() ==> #[trigger] positions[i]
                < start,
        forall|i: int|
            positions.len() - from_on(positions, start).len() <= i < positions.len() ==> start
                <= #[trigger] positions[i],
    decreases positions.len(),
{
    let kept = from_on(positions, start);
    if positions.len() > 0 && positions.last() >= start {
        let head = positions.drop_last();
        assert(ascending(head, end));
        lemma_from_on(head, start, end);
        assert forall|i: int| 0 <= i < positions.len() - kept.len() implies #[trigger] positions[i]
            < start by {
            assert(head[i] == positions[i]);
        }
        assert forall|i: int| positions.len() - kept.len() <= i < positions.len() implies start
            <= #[trigger] positions[i] by {
            if i < head.len() {
                assert(head[i] == positions[i]);
            }
        }
        assert(kept =~= positions.skip(positions.len() - kept.len()));
    } else {
        assert(kept =~= positions.skip(positions.len() as int));
    }
}

/// The turns and the marked records behind a marked record that stays are the same in the
/// whole rollout and in the records from that one on.
proof fn lemma_kept_from(items: Seq<EntryView>, marked: spec_fn(EntryView) -> bool, start: int)
    requires
        marked_positions(items, marked).contains(start),
    ensures
        0 <= start < items.len(),
        turn_positions(items.skip(start)) == counted_from(
            from_on(turn_positions(items), start),
            start,
        ),
        marked_positions(items.skip(start), marked) == counted_from(
            from_on(marked_positions(items, marked), start),
            start,
        ),
    decreases items.len(),
{
    let head = items.drop_last();
    let last = items.len() - 1;
    let entry = items.last();
    let turns = turn_positions(head);
    let positions = marked_positions(head, marked);
    law_marked_positions(items, marked);
    law_marked_positions(head, marked);
    lemma_turn_positions(head);
    let i = choose|i: int|
        0 <= i < marked_positions(items, marked).len() && marked_positions(items, marked)[i]
            == start;
    assert(0 <= start < items.len());
    let tail = items.skip(start);
    assert(tail.last() == entry);
    if start == last {
        assert(tail.drop_last() =~= Seq::<EntryView>::empty());
        assert(marked_positions(tail.drop_last(), marked) =~= Seq::<int>::empty());
        assert(turn_positions(tail.drop_last()) =~= Seq::<int>::empty());
        assert(!(entry.record is ThreadRolledBack)) by {
            if entry.record is ThreadRolledBack {
                law_rolled_back_turns_leave_nothing(items, marked, start);
            }
        }
        assert(marked(entry));
        lemma_from_on(positions, start, last);
        lemma_from_on(turns, start, last);
        let own = marked_positions(items, marked);
        assert(own =~= positions.push(last));
        assert(own.drop_last() =~= positions);
        assert(from_on(positions, start) =~= Seq::<int>::empty()) by {
            if positions.len() > 0 {
                assert(positions[positions.len() - 1] < last);
            }
        }
        assert(from_on(own, start) =~= seq![last]);
        assert(marked_positions(tail, marked) =~= counted_from(from_on(own, start), start));
        assert(from_on(turns, start) =~= Seq::<int>::empty()) by {
            if turns.len() > 0 {
                assert(turns[turns.len() - 1] < last);
            }
        }
        if starts_turn(entry) {
            let all = turn_positions(items);
            assert(all.drop_last() =~= turns);
            assert(from_on(all, start) =~= seq![last]);
        }
        assert(turn_positions(tail) =~= counted_from(
            from_on(turn_positions(items), start),
            start,
        ));
    } else {
        assert(tail.drop_last() =~= head.skip(start));
        assert(positions.contains(start)) by {
            match entry.record {
                RecordView::ThreadRolledBack(count) => {
                    law_rolled_back_turns_leave_nothing(items, marked, start);
                },
                _ => {
                    if marked(entry) {
                        assert(marked_positions(items, marked) == positions.push(last));
                    }
                    assert(positions[i] == start);
                },
            }
        }
        lemma_kept_from(head, marked, start);
        lemma_from_on(turns, start, last);
        lemma_from_on(positions, start, last);
        match entry.record {
            RecordView::ThreadRolledBack(count) => {
                law_rolled_back_turns_leave_nothing(items, marked, start);
                lemma_kept_rollback(turns, positions, start, last, count as int);
            },
            _ => {
                if marked(entry) {
                    let own = positions.push(last);
                    assert(own.drop_last() =~= positions);
                    assert(counted_from(from_on(own, start), start) =~= counted_from(
                        from_on(positions, start),
                        start,
                    ).push(last - start));
                }
                if starts_turn(entry) {
                    let all = turns.push(last);
                    assert(all.drop_last() =~= turns);
                    assert(counted_from(from_on(all, start), start) =~= counted_from(
                        from_on(turns, start),
                        start,
                    ).push(last - start));
                }
            },
        }
    }
}

/// Rolling back turns that lie behind a start takes away the same in the positions counted
/// from there.
proof fn lemma_kept_rollback(
    turns: Seq<int>,
    positions: Seq<int>,
    start: int,
    end: int,
    count: int,
)
    requires
        ascending(turns, end),
        ascending(positions, end),
        0 <= count,
        rolled_back_from(turns, count) matches Some(first) ==> start < first,
    ensures
        ({
            let later_turns = counted_from(from_on(turns, start), start);
            let later = counted_from(from_on(positions, start), start);
            let left_turns = turns.take(left(turns.len() as int, count));
            let left_later = later_turns.take(left(later_turns.len() as int, count));
            &&& left_later == counted_from(from_on(left_turns, start), start)
            &&& match (rolled_back_from(turns, count), rolled_back_from(later_turns, count)) {
                (Some(first), Some(later_first)) => later.filter(before(later_first))
                    == counted_from(from_on(positions.filter(before(first)), start), start),
                (None, None) => true,
                _ => false,
            }
        }),
{
    let kept_turns = from_on(turns, start);
    let later_turns = counted_from(kept_turns, start);
    let kept = from_on(positions, start);
    lemma_from_on(turns, start, end);
    lemma_from_on(positions, start, end);
    let skipped = turns.len() - kept_turns.len();
    let left_turns = turns.take(left(turns.len() as int, count));
    assert(ascending(left_turns, end));
    lemma_from_on(left_turns, start, end);
    if count == 0 || turns.len() == 0 {
        assert(left_turns =~= turns);
        assert(later_turns.take(left(later_turns.len() as int, count)) =~= later_turns);
    } else {
        let at = left(turns.len() as int, count);
        let first = turns[at];
        assert(start < first);
        assert(skipped <= at);
        assert(later_turns[at - skipped] == first - start);
        assert(left(later_turns.len() as int, count) == at - skipped);
        let left_kept = from_on(left_turns, start);
        assert(left_turns.len() - left_kept.len() == skipped) by {
            if left_turns.len() - left_kept.len() < skipped {
                let i = left_turns.len() - left_kept.len();
                assert(left_turns[i] == turns[i]);
            } else if left_turns.len() - left_kept.len() > skipped {
                assert(left_turns[skipped] == turns[skipped]);
            }
        }
        assert(later_turns.take(at - skipped) =~= counted_from(left_kept, start));
        lemma_filter_counted(positions, start, first, end);
    }
}

/// Keeping what lies before a position and counting from a start can change places.
proof fn lemma_filter_counted(positions: Seq<int>, start: int, first: int, end: int)
    requires
        ascending(positions, end),
        start < first,
    ensures
        counted_from(from_on(positions, start), start).filter(before(first - start))
            == counted_from(from_on(positions.filter(before(first)), start), start),
    decreases positions.len(),
{
    reveal(Seq::filter);
    let kept = positions.filter(before(first));
    let later = counted_from(from_on(positions, start), start);
    if positions.len() == 0 {
        assert(later =~= Seq::<int>::empty());
        assert(counted_from(from_on(kept, start), start) =~= Seq::<int>::empty());
    } else if positions.last() < start {
        lemma_filter_ascending(positions, first, end);
        assert(kept.last() == positions.last());
        assert(later =~= Seq::<int>::empty());
        assert(counted_from(from_on(kept, start), start) =~= Seq::<int>::empty());
    } else {
        let head = positions.drop_last();
        assert(ascending(head, end));
        lemma_filter_counted(head, start, first, end);
        let head_later = counted_from(from_on(head, start), start);
        assert(later =~= head_later.push(positions.last() - start));
        assert(later.drop_last() =~= head_later);
        if positions.last() < first {
            let head_kept = head.filter(before(first));
            assert(kept == head_kept.push(positions.last()));
            assert(kept.drop_last() =~= head_kept);
            assert(counted_from(from_on(kept, start), start) =~= counted_from(
                from_on(head_kept, start),
                start,
            ).push(positions.last() - start));
        }
    }
}

/// The records from a marked record that stays on hold the marked records from it on, and
/// no others.
pub proof fn law_kept_suffix_holds_the_last_records(
    items: Seq<EntryView>,
    marked: spec_fn(EntryView) -> bool,
    i: int,
)
    requires
        0 <= i < marked_positions(items, marked).len(),
    ensures
        ({
            let positions = marked_positions(items, marked);
            marked_positions(items.skip(positions[i]), marked) == counted_from(
                positions.skip(i),
                positions[i],
            )
        }),
{
    let positions = marked_positions(items, marked);
    let start = positions[i];
    law_marked_positions(items, marked);
    lemma_kept_from(items, marked, start);
    lemma_from_on(positions, start, items.len() as int);
    let skipped = positions.len() - from_on(positions, start).len();
    if skipped < i {
        assert(positions[skipped] < positions[i]);
    }
    assert(skipped == i);
}

/// The entries from a fork turn, counted from the last one that is left; all entries where
/// there are not more.
pub open spec fn last_fork_entries(items: Seq<EntryView>, number: int) -> Seq<EntryView> {
    let positions = marked_positions(items, fork_turns());
    if positions.len() <= number {
        items
    } else if number == 0 {
        Seq::<EntryView>::empty()
    } else {
        items.skip(positions[positions.len() - number])
    }
}

/// Cutting a rollout to its last fork turns leaves as many of them as were asked for, or all
/// where there are not as many.
pub proof fn law_last_fork_turns_are_kept(items: Seq<EntryView>, number: int)
    requires
        0 <= number,
    ensures
        last_fork_turns(items, number) == records(last_fork_entries(items, number)),
        marked_positions(last_fork_entries(items, number), fork_turns()).len() == if number
            <= marked_positions(items, fork_turns()).len() {
            number
        } else {
            marked_positions(items, fork_turns()).len() as int
        },
{
    let positions = marked_positions(items, fork_turns());
    if 0 < number < positions.len() {
        law_marked_positions(items, fork_turns());
        law_kept_suffix_holds_the_last_records(items, fork_turns(), positions.len() - number);
    }
    assert(last_fork_turns(items, number) =~= records(last_fork_entries(items, number)));
}

// ---------------------------------------------------------------------------
// What a record adds and takes away
// ---------------------------------------------------------------------------
/// One more record and the user messages that are left: a message that is shown as one of
/// the user adds its own position. Rolling back turns leaves the first ones, as many fewer
/// as turns were rolled back, and none where there were not more. Any other record changes
/// nothing.
pub proof fn law_user_messages_record_by_record(items: Seq<EntryView>, entry: EntryView)
    ensures
        ({
            let old_positions = user_positions(items);
            let positions = user_positions(items.push(entry));
            match entry.record {
                RecordView::ThreadRolledBack(count) => {
                    &&& count <= old_positions.len() ==> positions.len() + count
                        == old_positions.len()
                    &&& count > old_positions.len() ==> positions.len() == 0
                    &&& forall|i: int|
                        0 <= i < positions.len() ==> #[trigger] positions[i] == old_positions[i]
                },
                RecordView::ResponseItem(ItemView::Message { .. }) => {
                    if entry.reading.turn_item == Some(TurnItemKind::UserMessage) {
                        positions == old_positions.push(items.len() as int)
                    } else {
                        positions == old_positions
                    }
                },
                _ => positions == old_positions,
            }
        }),
{
    assert(items.push(entry).drop_last() =~= items);
}

/// One more record and the turns of instructions that are left: an item that starts a turn
/// adds its own position. Rolling back turns takes as many off the end.
pub proof fn law_turns_record_by_record(items: Seq<EntryView>, entry: EntryView)
    ensures
        ({
            let old_positions = turn_positions(items);
            let positions = turn_positions(items.push(entry));
            match entry.record {
                RecordView::ThreadRolledBack(count) => {
                    &&& count <= old_positions.len() ==> positions.len() + count
                        == old_positions.len()
                    &&& count > old_positions.len() ==> positions.len() == 0
                    &&& forall|i: int|
                        0 <= i < positions.len() ==> #[trigger] positions[i] == old_positions[i]
                },
                RecordView::ResponseItem(_) => {
                    if entry.reading.user_turn_boundary {
                        positions == old_positions.push(items.len() as int)
                    } else {
                        positions == old_positions
                    }
                },
                RecordView::Other(_) => positions == old_positions,
            }
        }),
{
    assert(items.push(entry).drop_last() =~= items);
}

/// One more record and the fork turns that are left: a message of the user, and an envelope
/// of the assistant that triggers a turn, add their own position.
pub proof fn law_fork_turns_record_by_record(items: Seq<EntryView>, entry: EntryView)
    requires
        !(entry.record is ThreadRolledBack),
    ensures
        ({
            let shown = entry.reading.turn_item == Some(TurnItemKind::UserMessage);
            let triggers = entry.reading.trigger_turn == Some(true);
            let old_positions = marked_positions(items, fork_turns());
            marked_positions(items.push(entry), fork_turns()) == match entry.record {
                RecordView::ResponseItem(ItemView::Message { role, .. }) => if shown || (role
                    == "assistant"@ && triggers) {
                    old_positions.push(items.len() as int)
                } else {
                    old_positions
                },
                RecordView::ResponseItem(ItemView::Other(_)) => if shown {
                    old_positions.push(items.len() as int)
                } else {
                    old_positions
                },
                _ => old_positions,
            }
        }),
{
    assert(items.push(entry).drop_last() =~= items);
}

/// One more record and the assistant messages that are left: an item that is shown as one
/// adds its own position.
pub proof fn law_assistant_messages_record_by_record(items: Seq<EntryView>, entry: EntryView)
    requires
        !(entry.record is ThreadRolledBack),
    ensures
        ({
            let old_positions = marked_positions(items, assistant_messages());
            marked_positions(items.push(entry), assistant_messages()) == if entry.record
                is ResponseItem && entry.reading.turn_item == Some(TurnItemKind::AgentMessage) {
                old_positions.push(items.len() as int)
            } else {
                old_positions
            }
        }),
{
    assert(items.push(entry).drop_last() =~= items);
}

/// Rolling back turns takes away exactly the marked records at and behind the earliest of
/// these turns: the one as many places from the end as turns are rolled back, or the first
/// one where there are not as many. Rolling back nothing, or where there is no turn, takes
/// nothing away.
pub proof fn law_rolling_back_cuts_at_the_earliest_turn(
    items: Seq<EntryView>,
    reading: ItemReading,
    count: u32,
    marked: spec_fn(EntryView) -> bool,
    position: int,
)
    ensures
        ({
            let turns = turn_positions(items);
            let entry = EntryView { record: RecordView::ThreadRolledBack(count), reading };
            let kept = marked_positions(items.push(entry), marked);
            let before_it = marked_positions(items, marked);
            &&& count == 0 || turns.len() == 0 ==> kept == before_it
            &&& 0 < count <= turns.len() ==> (kept.contains(position) <==> before_it.contains(
                position,
            ) && position < turns[turns.len() - count])
            &&& 0 < turns.len() < count ==> (kept.contains(position) <==> before_it.contains(
                position,
            ) && position < turns[0])
        }),
{
    let entry = EntryView { record: RecordView::ThreadRolledBack(count), reading };
    assert(items.push(entry).drop_last() =~= items);
    law_rolled_back_turns_leave_nothing(items.push(entry), marked, position);
}

/// What is cut before a user message is the start of the rollout: it holds as many user
/// messages as were asked for, and the record behind it is the next one. Where there are not
/// more, the whole rollout is kept.
pub proof fn law_cut_is_right_before_the_user_message(items: Seq<EntryView>, number: int)
    requires
        0 <= number,
    ensures
        before_user_message(items, number).is_prefix_of(records(items)),
        number >= user_positions(items).len() ==> before_user_message(items, number) == records(
            items,
        ),
        number < user_positions(items).len() ==> {
            let cut = before_user_message(items, number).len() as int;
            &&& cut < items.len()
            &&& user_positions(items.take(cut)).len() == number
            &&& items[cut].record matches RecordView::ResponseItem(ItemView::Message { .. })
            &&& items[cut].reading.turn_item == Some(TurnItemKind::UserMessage)
        },
{
    law_user_positions(items);
    let kept = before_user_message(items, number);
    assert(kept =~= records(items).take(kept.len() as int));
}

/// What is kept of the last fork turns is the end of the rollout, which starts with a fork
/// turn where anything was cut off and anything is left.
pub proof fn law_kept_fork_turns_end_the_rollout(items: Seq<EntryView>, number: int)
    requires
        0 <= number,
    ensures
        ({
            let kept = last_fork_turns(items, number);
            let cut = items.len() - kept.len();
            &&& kept.is_suffix_of(records(items))
            &&& 0 < kept.len() < items.len() ==> {
                &&& items[cut].record is ResponseItem
                &&& items[cut].reading.turn_item == Some(TurnItemKind::UserMessage)
                    || items[cut].reading.trigger_turn == Some(true)
                &&& marked_positions(items.skip(cut), fork_turns()).len() == number
            }
            &&& kept.len() == 0 && items.len() > 0 ==> number == 0
            &&& number >= marked_positions(items, fork_turns()).len() ==> kept == records(items)
        }),
{
    law_marked_positions(items, fork_turns());
    let positions = marked_positions(items, fork_turns());
    let kept = last_fork_turns(items, number);
    assert(kept =~= records(items).skip(items.len() - kept.len()));
    if 0 < number < positions.len() {
        let at = positions[positions.len() - number];
        assert(fork_turns()(items[at]));
        law_kept_suffix_holds_the_last_records(items, fork_turns(), positions.len() - number);
    }
}

} // verus!
