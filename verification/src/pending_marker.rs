//! Child branches whose place in the parent thread is still to be found.
use crate::protocol;
use crate::protocol::{ThreadForkSnapshot, ThreadItem, Turn};
use crate::ranking;
use crate::ranking::{sort_ranked, text_up_to, Ranked};
use crate::strings::copy_optional;
use crate::text::to_chars;
use crate::threads::Thread;
use vstd::prelude::*;
use vstd::string::*;

verus! {

/// The number of characters by which a branch is named.
pub const BRANCH_ID_SUFFIX_CHARS: usize = 4;

/// What kind of fork point a child branch has.
#[derive(Clone, Copy, Debug, PartialEq, Eq, Structural)]
pub enum PendingDirectChildBranchMarkerAnchor {
    AssistantRead,
    LatestAssistantRead,
}

/// Why a child branch has no place.
#[derive(Clone, Copy, Debug, PartialEq, Eq, Structural)]
pub enum PendingDirectChildBranchMarkerUnresolvedReason {
    MissingRawMarkdown,
    SourcePositionCouldNotBeMapped,
    MappedSourceLineOutsideCurrentCell,
    NeverMatchedAssistantMessageCell,
}

/// A child branch whose place is still to be found.
#[derive(Clone, Debug, PartialEq, Eq)]
pub struct PendingDirectChildBranchMarker {
    pub anchor_kind: PendingDirectChildBranchMarkerAnchor,
    pub assistant_message_index: usize,
    pub source_line_index: usize,
    pub source_byte_offset: usize,
    pub branch_depth: u32,
    pub branch_id_suffix: String,
    pub selection_summary: String,
    pub unresolved_reason: Option<PendingDirectChildBranchMarkerUnresolvedReason>,
}

impl PendingDirectChildBranchMarker {
    /// A copy of this marker.
    pub fn copy(&self) -> (marker: PendingDirectChildBranchMarker)
        ensures
            marker == *self,
    {
        PendingDirectChildBranchMarker {
            anchor_kind: self.anchor_kind,
            assistant_message_index: self.assistant_message_index,
            source_line_index: self.source_line_index,
            source_byte_offset: self.source_byte_offset,
            branch_depth: self.branch_depth,
            branch_id_suffix: self.branch_id_suffix.clone(),
            selection_summary: self.selection_summary.clone(),
            unresolved_reason: self.unresolved_reason,
        }
    }
}

/// The name of a reason.
pub open spec fn reason_name(reason: PendingDirectChildBranchMarkerUnresolvedReason) -> Seq<char> {
    match reason {
        PendingDirectChildBranchMarkerUnresolvedReason::MissingRawMarkdown => {
            "missing_raw_markdown"@
        },
        PendingDirectChildBranchMarkerUnresolvedReason::SourcePositionCouldNotBeMapped => {
            "source_position_could_not_be_mapped"@
        },
        PendingDirectChildBranchMarkerUnresolvedReason::MappedSourceLineOutsideCurrentCell => {
            "mapped_source_line_outside_current_cell"@
        },
        PendingDirectChildBranchMarkerUnresolvedReason::NeverMatchedAssistantMessageCell => {
            "never_matched_assistant_message_cell"@
        },
    }
}

/// The name of a reason.
pub fn pending_direct_child_branch_marker_unresolved_reason_text(
    reason: PendingDirectChildBranchMarkerUnresolvedReason,
) -> (name: &'static str)
    ensures
        name@ == reason_name(reason),
{
    match reason {
        PendingDirectChildBranchMarkerUnresolvedReason::MissingRawMarkdown => {
            "missing_raw_markdown"
        },
        PendingDirectChildBranchMarkerUnresolvedReason::SourcePositionCouldNotBeMapped => {
            "source_position_could_not_be_mapped"
        },
        PendingDirectChildBranchMarkerUnresolvedReason::MappedSourceLineOutsideCurrentCell => {
            "mapped_source_line_outside_current_cell"
        },
        PendingDirectChildBranchMarkerUnresolvedReason::NeverMatchedAssistantMessageCell => {
            "never_matched_assistant_message_cell"
        },
    }
}

// ---------------------------------------------------------------------------
// The latest message
// ---------------------------------------------------------------------------
/// The index of the latest assistant message of some turns, as far as the machine can
/// count.
pub open spec fn latest_message_index(turns: Seq<Turn>) -> Option<int> {
    let count = protocol::turn_messages(turns).len();
    if count == 0 {
        None
    } else if count <= usize::MAX {
        Some(count - 1)
    } else {
        Some(usize::MAX - 1)
    }
}

/// A count that stops at the greatest number.
spec fn counted(count: int) -> int {
    if count <= usize::MAX {
        count
    } else {
        usize::MAX as int
    }
}

/// The index of the latest assistant message of some turns.
pub fn latest_assistant_message_index_for_thread(turns: &[Turn]) -> (index: Option<usize>)
    ensures
        match index {
            Some(index) => latest_message_index(turns@) == Some(index as int),
            None => latest_message_index(turns@) is None,
        },
{
    let mut count: usize = 0;
    let mut turn_index: usize = 0;
    assert(turns@.take(0) =~= Seq::<Turn>::empty());
    while turn_index < turns.len()
        invariant
            turn_index <= turns@.len(),
            count == counted(
                protocol::turn_messages(turns@.take(turn_index as int)).len() as int,
            ),
        decreases turns@.len() - turn_index,
    {
        let turn = &turns[turn_index];
        let ghost before = protocol::turn_messages(turns@.take(turn_index as int));
        let mut item_index: usize = 0;
        assert(turn.items@.take(0) =~= Seq::<ThreadItem>::empty());
        while item_index < turn.items.len()
            invariant
                item_index <= turn.items@.len(),
                count == counted(
                    (before.len() + protocol::item_messages(
                        turn.items@.take(item_index as int),
                    ).len()) as int,
                ),
            decreases turn.items@.len() - item_index,
        {
            proof {
                let taken = turn.items@.take(item_index as int + 1);
                assert(taken.drop_last() =~= turn.items@.take(item_index as int));
                assert(taken.last() == turn.items@[item_index as int]);
            }
            if let ThreadItem::AgentMessage { .. } = &turn.items[item_index] {
                count = count.saturating_add(1);
            }
            item_index = item_index + 1;
        }
        proof {
            let taken = turns@.take(turn_index as int + 1);
            assert(taken.drop_last() =~= turns@.take(turn_index as int));
            assert(taken.last() == *turn);
            assert(turn.items@.take(turn.items@.len() as int) =~= turn.items@);
        }
        turn_index = turn_index + 1;
    }
    assert(turns@.take(turns@.len() as int) =~= turns@);
    count.checked_sub(1)
}

// ---------------------------------------------------------------------------
// Making markers
// ---------------------------------------------------------------------------
/// The last characters of a text, from the last one back.
pub open spec fn reversed_suffix(text: Seq<char>) -> Seq<char> {
    let count = if text.len() < BRANCH_ID_SUFFIX_CHARS {
        text.len()
    } else {
        BRANCH_ID_SUFFIX_CHARS as nat
    };
    Seq::new(count, |i: int| text[text.len() - 1 - i])
}

/// The first text that there is.
pub open spec fn first_text(
    first: Option<String>,
    second: Option<String>,
    third: Option<String>,
) -> Seq<char> {
    match (first, second, third) {
        (Some(text), _, _) => text@,
        (None, Some(text), _) => text@,
        (None, None, Some(text)) => text@,
        (None, None, None) => "branch"@,
    }
}

/// The fork point of a child branch: its kind, the index of its message, and the segment
/// and byte there.
pub open spec fn fork_place(
    snapshot: Option<ThreadForkSnapshot>,
    latest: Option<usize>,
) -> Option<(PendingDirectChildBranchMarkerAnchor, u32, u32, u32)> {
    match snapshot {
        Some(
            ThreadForkSnapshot::AssistantReadAnchor {
                assistant_message_index,
                source_line_index,
                source_byte_offset,
            },
        ) => Some(
            (
                PendingDirectChildBranchMarkerAnchor::AssistantRead,
                assistant_message_index,
                source_line_index,
                source_byte_offset,
            ),
        ),
        Some(
            ThreadForkSnapshot::LatestAssistantReadAnchor { source_line_index, source_byte_offset },
        ) => match latest {
            Some(latest) if latest <= u32::MAX => Some(
                (
                    PendingDirectChildBranchMarkerAnchor::LatestAssistantRead,
                    latest as u32,
                    source_line_index,
                    source_byte_offset,
                ),
            ),
            _ => None,
        },
        _ => None,
    }
}

/// Whether a marker is that of a child branch, with a name.
pub open spec fn is_marker_of(
    marker: PendingDirectChildBranchMarker,
    thread: Thread,
    place: (PendingDirectChildBranchMarkerAnchor, u32, u32, u32),
    name: Seq<char>,
) -> bool {
    &&& marker.anchor_kind == place.0
    &&& marker.assistant_message_index == place.1
    &&& marker.source_line_index == place.2
    &&& marker.source_byte_offset == place.3
    &&& marker.branch_depth == match thread.branch_depth {
        Some(depth) => depth,
        None => 0,
    }
    &&& marker.branch_id_suffix@ == name
    &&& marker.selection_summary@ == first_text(
        thread.branch_anchor_summary,
        thread.branch_anchor_head_summary,
        thread.branch_anchor_tail_summary,
    )
    &&& marker.unresolved_reason is None
}

/// The last characters of a text, from the last one back.
fn reversed_id_suffix(text: &str) -> (suffix: String)
    ensures
        suffix@ == reversed_suffix(text@),
{
    let chars = to_chars(text);
    let total: usize = chars.len();
    let count: usize = if total < BRANCH_ID_SUFFIX_CHARS {
        total
    } else {
        BRANCH_ID_SUFFIX_CHARS
    };
    let mut suffix = String::new();
    let mut index: usize = 0;
    while index < count
        invariant
            chars@ == text@,
            index <= count <= total == chars@.len(),
            count == reversed_suffix(text@).len(),
            suffix@ =~= reversed_suffix(text@).take(index as int),
        decreases count - index,
    {
        suffix.push(chars[total - 1 - index]);
        index = index + 1;
    }
    assert(suffix@ =~= reversed_suffix(text@));
    suffix
}

/// The marker of a child branch, where its fork point lies in a reply. Its name is still
/// reversed.
pub fn pending_direct_child_branch_marker(
    thread: &Thread,
    latest_assistant_message_index: Option<usize>,
) -> (marker: Option<PendingDirectChildBranchMarker>)
    ensures
        match (
            marker,
            fork_place(thread.branch_origin_snapshot, latest_assistant_message_index),
        ) {
            (Some(marker), Some(place)) => is_marker_of(
                marker,
                *thread,
                place,
                reversed_suffix(thread.id@),
            ),
            (None, None) => true,
            _ => false,
        },
{
    let (anchor_kind, assistant_message_index, source_line_index, source_byte_offset): (
        PendingDirectChildBranchMarkerAnchor,
        u32,
        u32,
        u32,
    ) = match thread.branch_origin_snapshot {
        Some(
            ThreadForkSnapshot::AssistantReadAnchor {
                assistant_message_index,
                source_line_index,
                source_byte_offset,
            },
        ) => (
            PendingDirectChildBranchMarkerAnchor::AssistantRead,
            assistant_message_index,
            source_line_index,
            source_byte_offset,
        ),
        Some(
            ThreadForkSnapshot::LatestAssistantReadAnchor { source_line_index, source_byte_offset },
        ) => match latest_assistant_message_index {
            Some(latest) => if latest <= u32::MAX as usize {
                (
                    PendingDirectChildBranchMarkerAnchor::LatestAssistantRead,
                    latest as u32,
                    source_line_index,
                    source_byte_offset,
                )
            } else {
                return None;
            },
            None => return None,
        },
        _ => return None,
    };
    let branch_depth: u32 = match thread.branch_depth {
        Some(depth) => depth,
        None => 0,
    };
    let selection_summary = match (
        copy_optional(&thread.branch_anchor_summary),
        copy_optional(&thread.branch_anchor_head_summary),
        copy_optional(&thread.branch_anchor_tail_summary),
    ) {
        (Some(text), _, _) => text,
        (None, Some(text), _) => text,
        (None, None, Some(text)) => text,
        (None, None, None) => "branch".to_owned(),
    };
    Some(
        PendingDirectChildBranchMarker {
            anchor_kind,
            assistant_message_index: assistant_message_index as usize,
            source_line_index: source_line_index as usize,
            source_byte_offset: source_byte_offset as usize,
            branch_depth,
            branch_id_suffix: reversed_id_suffix(thread.id.as_str()),
            selection_summary,
            unresolved_reason: None,
        },
    )
}

// ---------------------------------------------------------------------------
// The markers of a thread
// ---------------------------------------------------------------------------
impl Ranked for PendingDirectChildBranchMarker {
    open spec fn not_after(self, other: Self) -> bool {
        if self.assistant_message_index != other.assistant_message_index {
            self.assistant_message_index < other.assistant_message_index
        } else if self.source_line_index != other.source_line_index {
            self.source_line_index < other.source_line_index
        } else if self.source_byte_offset != other.source_byte_offset {
            self.source_byte_offset < other.source_byte_offset
        } else {
            ranking::text_not_after(self.branch_id_suffix@, other.branch_id_suffix@)
        }
    }

    fn ranks_up_to(&self, other: &Self) -> (yes: bool) {
        if self.assistant_message_index != other.assistant_message_index {
            self.assistant_message_index < other.assistant_message_index
        } else if self.source_line_index != other.source_line_index {
            self.source_line_index < other.source_line_index
        } else if self.source_byte_offset != other.source_byte_offset {
            self.source_byte_offset < other.source_byte_offset
        } else {
            text_up_to(self.branch_id_suffix.as_str(), other.branch_id_suffix.as_str())
        }
    }

    proof fn ranks_are_ordered(a: Self, b: Self, c: Self) {
        ranking::lemma_texts_are_ordered(
            a.branch_id_suffix@,
            b.branch_id_suffix@,
            c.branch_id_suffix@,
        );
    }
}

/// Whether a child branch is forked from the latest reply.
pub open spec fn forked_from_latest(thread: Thread) -> bool {
    thread.branch_origin_snapshot matches Some(snapshot) && snapshot is LatestAssistantReadAnchor
}

/// Whether the index of the latest reply is needed to place some child branches.
pub fn needs_latest_assistant_message_index(children: &[Thread]) -> (needed: bool)
    ensures
        needed == exists|i: int| 0 <= i < children@.len() && forked_from_latest(
            #[trigger] children@[i],
        ),
{
    let mut index: usize = 0;
    while index < children.len()
        invariant
            index <= children@.len(),
            forall|i: int| 0 <= i < index ==> !forked_from_latest(#[trigger] children@[i]),
        decreases children@.len() - index,
    {
        if let Some(ThreadForkSnapshot::LatestAssistantReadAnchor { .. }) = children[index]
            .branch_origin_snapshot {
            assert(forked_from_latest(children@[index as int]));
            return true;
        }
        index = index + 1;
    }
    false
}

/// The child branches that have a fork point in a reply.
pub open spec fn placeable(latest: Option<usize>) -> spec_fn(Thread) -> bool {
    |thread: Thread| fork_place(thread.branch_origin_snapshot, latest) is Some
}

/// The last characters of a text.
pub open spec fn suffix(text: Seq<char>) -> Seq<char> {
    if text.len() < BRANCH_ID_SUFFIX_CHARS {
        text
    } else {
        text.skip(text.len() - BRANCH_ID_SUFFIX_CHARS)
    }
}

/// Whether markers are those of the child branches with a fork point in a reply, in their
/// order.
pub open spec fn are_markers_of(
    markers: Seq<PendingDirectChildBranchMarker>,
    children: Seq<Thread>,
    latest: Option<usize>,
) -> bool {
    let placed = children.filter(placeable(latest));
    &&& markers.len() == placed.len()
    &&& forall|i: int|
        0 <= i < markers.len() ==> is_marker_of(
            #[trigger] markers[i],
            placed[i],
            fork_place(placed[i].branch_origin_snapshot, latest)->0,
            suffix(placed[i].id@),
        )
}

/// Whether markers are those of the child branches with a fork point in a reply, in the
/// order of their fork points.
pub open spec fn are_sorted_markers_of(
    markers: Seq<PendingDirectChildBranchMarker>,
    children: Seq<Thread>,
    latest: Option<usize>,
) -> bool {
    exists|unsorted: Seq<PendingDirectChildBranchMarker>| #[trigger]
        are_markers_of(unsorted, children, latest) && markers == ranking::ranked(unsorted)
}

/// A text with its characters in the other order.
fn reversed(text: &str) -> (other: String)
    ensures
        other@ == text@.reverse(),
{
    let chars = to_chars(text);
    let mut other = String::new();
    let mut left: usize = chars.len();
    while left > 0
        invariant
            chars@ == text@,
            left <= chars@.len(),
            other@ =~= text@.reverse().take(chars@.len() - left),
        decreases left,
    {
        left = left - 1;
        other.push(chars[left]);
    }
    assert(other@ =~= text@.reverse());
    other
}

/// The markers of the child branches of a thread, in the order of their fork points.
pub fn direct_child_branch_markers_for_thread(
    child_threads: &[Thread],
    latest_assistant_message_index: Option<usize>,
) -> (markers: Vec<PendingDirectChildBranchMarker>)
    ensures
        are_sorted_markers_of(markers@, child_threads@, latest_assistant_message_index),
{
    let mut markers: Vec<PendingDirectChildBranchMarker> = Vec::new();
    let ghost latest = latest_assistant_message_index;
    let mut index: usize = 0;
    proof {
        reveal(Seq::filter);
        assert(child_threads@.take(0) =~= Seq::<Thread>::empty());
    }
    while index < child_threads.len()
        invariant
            index <= child_threads@.len(),
            latest == latest_assistant_message_index,
            are_markers_of(markers@, child_threads@.take(index as int), latest),
        decreases child_threads@.len() - index,
    {
        let thread = &child_threads[index];
        proof {
            reveal(Seq::filter);
            let taken = child_threads@.take(index as int + 1);
            assert(taken.drop_last() =~= child_threads@.take(index as int));
            assert(taken.last() == *thread);
        }
        if let Some(mut marker) = pending_direct_child_branch_marker(
            thread,
            latest_assistant_message_index,
        ) {
            marker.branch_id_suffix = reversed(marker.branch_id_suffix.as_str());
            assert(reversed_suffix(thread.id@).reverse() =~= suffix(thread.id@));
            markers.push(marker);
        }
        index = index + 1;
    }
    assert(child_threads@.take(child_threads@.len() as int) =~= child_threads@);
    sort_ranked(&mut markers);
    markers
}

// ---------------------------------------------------------------------------
// What pending markers say
// ---------------------------------------------------------------------------
/// A child that forked from a message by its number waits for that message, and one that
/// forked from the latest message for the latest one, where it is known. The place inside
/// the message is that of the fork. Any other child has no marker.
pub proof fn law_markers_wait_where_the_fork_is(
    index: u32,
    line: u32,
    offset: u32,
    latest: Option<usize>,
)
    ensures
        fork_place(
            Some(
                ThreadForkSnapshot::AssistantReadAnchor {
                    assistant_message_index: index,
                    source_line_index: line,
                    source_byte_offset: offset,
                },
            ),
            latest,
        ) == Some((PendingDirectChildBranchMarkerAnchor::AssistantRead, index, line, offset)),
        latest is Some && latest->0 <= u32::MAX ==> fork_place(
            Some(
                ThreadForkSnapshot::LatestAssistantReadAnchor {
                    source_line_index: line,
                    source_byte_offset: offset,
                },
            ),
            latest,
        ) == Some(
            (
                PendingDirectChildBranchMarkerAnchor::LatestAssistantRead,
                latest->0 as u32,
                line,
                offset,
            ),
        ),
        latest is None ==> fork_place(
            Some(
                ThreadForkSnapshot::LatestAssistantReadAnchor {
                    source_line_index: line,
                    source_byte_offset: offset,
                },
            ),
            latest,
        ) is None,
        fork_place(Some(ThreadForkSnapshot::Interrupted), latest) is None,
        fork_place(None, latest) is None,
{
}

/// A marker carries the place of its fork, the depth and the name of its branch and the first
/// of its summaries that is known: that of the selection, then that of the head and then that
/// of the tail of the anchor. It starts without a reason why it could not be placed.
pub proof fn law_markers_describe_their_branch(
    marker: PendingDirectChildBranchMarker,
    thread: Thread,
    kind: PendingDirectChildBranchMarkerAnchor,
    index: u32,
    line: u32,
    offset: u32,
    name: Seq<char>,
)
    requires
        is_marker_of(marker, thread, (kind, index, line, offset), name),
    ensures
        marker.anchor_kind == kind,
        marker.assistant_message_index == index,
        marker.source_line_index == line,
        marker.source_byte_offset == offset,
        marker.branch_id_suffix@ == name,
        thread.branch_depth is Some ==> marker.branch_depth == thread.branch_depth->0,
        thread.branch_depth is None ==> marker.branch_depth == 0,
        marker.unresolved_reason is None,
        ({
            let selection = thread.branch_anchor_summary;
            let head = thread.branch_anchor_head_summary;
            let tail = thread.branch_anchor_tail_summary;
            let shown = marker.selection_summary@;
            &&& selection is Some ==> shown == selection->0@
            &&& selection is None && head is Some ==> shown == head->0@
            &&& selection is None && head is None && tail is Some ==> shown == tail->0@
            &&& selection is None && head is None && tail is None ==> shown == "branch"@
        }),
{
}

/// A branch is named by the last four characters of its thread, or by all of them where
/// there are fewer.
pub proof fn law_names_are_the_last_characters(start: Seq<char>, end: Seq<char>)
    ensures
        end.len() == 4 ==> suffix(start + end) == end,
        end.len() < 4 ==> suffix(end) == end,
        end.len() == 4 ==> reversed_suffix(start + end) == end.reverse(),
        end.len() < 4 ==> reversed_suffix(end) == end.reverse(),
{
    if end.len() == 4 {
        assert((start + end).skip((start + end).len() - 4) =~= end);
        assert(reversed_suffix(start + end) =~= end.reverse());
    } else if end.len() < 4 {
        assert(reversed_suffix(end) =~= end.reverse());
    }
}

/// The latest message is the last of all those of the turns.
pub proof fn law_latest_message_is_the_last(turns: Seq<Turn>)
    requires
        protocol::turn_messages(turns).len() <= usize::MAX,
    ensures
        protocol::turn_messages(turns).len() == 0 <==> latest_message_index(turns) is None,
        latest_message_index(turns) matches Some(index) ==> index + 1 == protocol::turn_messages(
            turns,
        ).len(),
{
}

/// Pending markers are in the order of the text: by message, then by piece, then by offset,
/// and by name where they have the same place.
pub proof fn law_pending_markers_are_in_order(
    markers: Seq<PendingDirectChildBranchMarker>,
    children: Seq<Thread>,
    latest: Option<usize>,
    i: int,
    j: int,
)
    requires
        are_sorted_markers_of(markers, children, latest),
        0 <= i < j < markers.len(),
    ensures
        ({
            let a = markers[i];
            let b = markers[j];
            ||| a.assistant_message_index < b.assistant_message_index
            ||| a.assistant_message_index == b.assistant_message_index && a.source_line_index
                < b.source_line_index
            ||| a.assistant_message_index == b.assistant_message_index && a.source_line_index
                == b.source_line_index && a.source_byte_offset < b.source_byte_offset
            ||| a.assistant_message_index == b.assistant_message_index && a.source_line_index
                == b.source_line_index && a.source_byte_offset == b.source_byte_offset
                && ranking::text_not_after(a.branch_id_suffix@, b.branch_id_suffix@)
        }),
{
    let unsorted = choose|unsorted: Seq<PendingDirectChildBranchMarker>| #[trigger]
        are_markers_of(unsorted, children, latest) && markers == ranking::ranked(unsorted);
    ranking::law_sorting_is_stable(unsorted);
    assert(markers[i].not_after(markers[j]));
}

/// Every child with a place has its own marker, and no other child has one.
pub proof fn law_every_placed_child_has_a_marker(
    markers: Seq<PendingDirectChildBranchMarker>,
    children: Seq<Thread>,
    latest: Option<usize>,
    k: int,
)
    requires
        are_markers_of(markers, children, latest),
        0 <= k < children.len(),
    ensures
        fork_place(children[k].branch_origin_snapshot, latest) is Some ==> exists|i: int|
            0 <= i < markers.len() && is_marker_of(
                #[trigger] markers[i],
                children[k],
                fork_place(children[k].branch_origin_snapshot, latest)->0,
                suffix(children[k].id@),
            ),
        markers.len() <= children.len(),
{
    let placed = children.filter(placeable(latest));
    children.lemma_filter_len(placeable(latest));
    if fork_place(children[k].branch_origin_snapshot, latest) is Some {
        children.lemma_filter_contains(placeable(latest), k);
        let i = choose|i: int| 0 <= i < placed.len() && placed[i] == children[k];
        assert(is_marker_of(
            markers[i],
            placed[i],
            fork_place(placed[i].branch_origin_snapshot, latest)->0,
            suffix(placed[i].id@),
        ));
    }
}

} // verus!
