//! Placing the markers of child branches while the parent thread is shown.
use crate::agent_markers;
use crate::agent_markers::{new_unresolved_branch_markers_event, UnresolvedBranchMarkerInfo};
use crate::history_cell;
use crate::history_cell::{AgentBranchMarker, AgentMessageCell, HistoryCell};
use crate::marker_position;
use crate::marker_position::{
    display_source_position_for_marker, snap_branch_marker_display_offset,
};
use crate::pending_marker::{
    PendingDirectChildBranchMarker, PendingDirectChildBranchMarkerUnresolvedReason,
};
use crate::ranking;
use crate::ranking::Ranked;
use crate::strings;
use crate::styled;
use crate::styled::{Line, Style};
use crate::text;
use crate::text::byte_count;
use vstd::prelude::*;
use vstd::string::*;

verus! {

/// The child branches of a thread while it is shown: those without a place so far, and
/// how far the replies have come.
#[derive(Clone, Debug, PartialEq, Eq)]
pub struct ChildBranchMarkers {
    pub pending_direct_child_branch_markers: Vec<PendingDirectChildBranchMarker>,
    pub next_assistant_history_cell_index: usize,
    pub current_assistant_message_source_line_offset: usize,
    pub current_assistant_message_source_byte_offset: usize,
}

/// A sum that stops at the greatest number.
pub open spec fn sum_up_to_max(a: int, b: int) -> int {
    if a + b <= usize::MAX {
        a + b
    } else {
        usize::MAX as int
    }
}

// ---------------------------------------------------------------------------
// One marker
// ---------------------------------------------------------------------------
/// What becomes of a marker when a cell of a reply is shown.
pub enum Placement {
    /// It belongs to another reply.
    Elsewhere,
    /// It belongs to this reply, but has no place in this cell.
    Unresolved(PendingDirectChildBranchMarkerUnresolvedReason),
    /// It has a place: a line of the cell and a byte offset there.
    Placed(int, int),
}

/// What becomes of a marker when a cell of the reply with an index is shown, whose lines
/// start at an offset.
pub open spec fn placement(
    marker: PendingDirectChildBranchMarker,
    cell: history_cell::MessageView,
    current_index: int,
    line_offset: int,
    model: spec_fn(Seq<char>) -> Seq<styled::LineView>,
) -> Placement {
    if marker.assistant_message_index != current_index {
        Placement::Elsewhere
    } else {
        match cell.raw_markdown {
            None => Placement::Unresolved(
                PendingDirectChildBranchMarkerUnresolvedReason::MissingRawMarkdown,
            ),
            Some(raw) => match marker_position::marker_place(
                raw,
                cell.texts,
                cell.source_segments,
                marker.source_line_index as int,
                marker.source_byte_offset as int,
                model,
            ) {
                None => Placement::Unresolved(
                    PendingDirectChildBranchMarkerUnresolvedReason::SourcePositionCouldNotBeMapped,
                ),
                Some((line, offset)) => if sum_up_to_max(line_offset, line) >= sum_up_to_max(
                    line_offset,
                    cell.texts.len() as int,
                ) {
                    Placement::Unresolved(
                        PendingDirectChildBranchMarkerUnresolvedReason::MappedSourceLineOutsideCurrentCell,
                    )
                } else {
                    Placement::Placed(
                        line,
                        text::byte_pos(
                            cell.texts[line],
                            marker_position::snapped(cell.texts[line], offset),
                        ),
                    )
                },
            },
        }
    }
}

/// What a marker that has no place becomes.
pub open spec fn left_over(
    marker: PendingDirectChildBranchMarker,
    placed: Placement,
) -> PendingDirectChildBranchMarker {
    match placed {
        Placement::Unresolved(reason) => PendingDirectChildBranchMarker {
            unresolved_reason: Some(reason),
            ..marker
        },
        _ => marker,
    }
}

/// A marker at its place.
pub open spec fn at_place(marker: PendingDirectChildBranchMarker, line: int, offset: int) -> AgentBranchMarker {
    AgentBranchMarker {
        source_line_index: line as usize,
        source_byte_offset: offset as usize,
        branch_depth: marker.branch_depth,
        branch_id_suffix: marker.branch_id_suffix,
        selection_summary: marker.selection_summary,
    }
}

/// The markers that have no place in a cell, in their order.
pub open spec fn still_pending(
    markers: Seq<PendingDirectChildBranchMarker>,
    cell: history_cell::MessageView,
    current_index: int,
    line_offset: int,
    model: spec_fn(Seq<char>) -> Seq<styled::LineView>,
) -> Seq<PendingDirectChildBranchMarker>
    decreases markers.len(),
{
    if markers.len() == 0 {
        markers
    } else {
        let head = still_pending(markers.drop_last(), cell, current_index, line_offset, model);
        let placed = placement(markers.last(), cell, current_index, line_offset, model);
        if placed is Placed {
            head
        } else {
            head.push(left_over(markers.last(), placed))
        }
    }
}

/// The markers that have a place in a cell, in their order.
pub open spec fn newly_placed(
    markers: Seq<PendingDirectChildBranchMarker>,
    cell: history_cell::MessageView,
    current_index: int,
    line_offset: int,
    model: spec_fn(Seq<char>) -> Seq<styled::LineView>,
) -> Seq<AgentBranchMarker>
    decreases markers.len(),
{
    if markers.len() == 0 {
        Seq::<AgentBranchMarker>::empty()
    } else {
        let head = newly_placed(markers.drop_last(), cell, current_index, line_offset, model);
        match placement(markers.last(), cell, current_index, line_offset, model) {
            Placement::Placed(line, offset) => head.push(at_place(markers.last(), line, offset)),
            _ => head,
        }
    }
}

/// What became of a marker.
enum Placing {
    Elsewhere,
    Unresolved(PendingDirectChildBranchMarkerUnresolvedReason),
    Placed(usize, usize),
}

/// What became of a marker.
spec fn placing_view(placing: Placing) -> Placement {
    match placing {
        Placing::Elsewhere => Placement::Elsewhere,
        Placing::Unresolved(reason) => Placement::Unresolved(reason),
        Placing::Placed(line, offset) => Placement::Placed(line as int, offset as int),
    }
}

/// Finds the place of a marker in a cell.
fn place_marker<F: Fn(&str) -> Vec<Line>>(
    marker: &PendingDirectChildBranchMarker,
    cell: &AgentMessageCell,
    source_lines: &[String],
    current_index: usize,
    current_line_offset: usize,
    append_markdown: &F,
) -> (placing: Placing)
    requires
        styled::is_renderer(*append_markdown),
        strings::texts(source_lines@) == history_cell::message_view(*cell).texts,
    ensures
        forall|model: spec_fn(Seq<char>) -> Seq<styled::LineView>| #[trigger]
            styled::renders_as(*append_markdown, model) ==> placing_view(placing) == placement(
                *marker,
                history_cell::message_view(*cell),
                current_index as int,
                current_line_offset as int,
                model,
            ),
{
    assert(strings::texts(source_lines@).len() == source_lines@.len());
    if marker.assistant_message_index != current_index {
        return Placing::Elsewhere;
    }
    let raw_markdown = match cell.raw_markdown_text() {
        Some(raw_markdown) => raw_markdown,
        None => return Placing::Unresolved(
            PendingDirectChildBranchMarkerUnresolvedReason::MissingRawMarkdown,
        ),
    };
    let source_segments: Option<&[String]> = match &cell.source_segments {
        Some(segments) => Some(segments.as_slice()),
        None => None,
    };
    let (line, offset): (usize, usize) = match display_source_position_for_marker(
        raw_markdown,
        source_lines,
        source_segments,
        marker,
        append_markdown,
    ) {
        Some(place) => place,
        None => return Placing::Unresolved(
            PendingDirectChildBranchMarkerUnresolvedReason::SourcePositionCouldNotBeMapped,
        ),
    };
    let current_line_end: usize = current_line_offset.saturating_add(source_lines.len());
    let source_line_index: usize = current_line_offset.saturating_add(line);
    if source_line_index < current_line_offset || source_line_index >= current_line_end {
        return Placing::Unresolved(
            PendingDirectChildBranchMarkerUnresolvedReason::MappedSourceLineOutsideCurrentCell,
        );
    }
    assert(strings::texts(source_lines@)[line as int] == source_lines@[line as int]@);
    let snapped_offset: usize = snap_branch_marker_display_offset(
        source_lines[line].as_str(),
        offset,
    );
    Placing::Placed(line, snapped_offset)
}

// ---------------------------------------------------------------------------
// All markers
// ---------------------------------------------------------------------------
/// The index of the reply that a cell belongs to.
pub open spec fn reply_index(state: ChildBranchMarkers, continues: bool) -> int {
    if continues && state.next_assistant_history_cell_index > 0 {
        state.next_assistant_history_cell_index - 1
    } else {
        state.next_assistant_history_cell_index as int
    }
}

/// The number of lines of a reply before a cell of it.
pub open spec fn lines_before(state: ChildBranchMarkers, continues: bool) -> int {
    if continues {
        state.current_assistant_message_source_line_offset as int
    } else {
        0
    }
}

/// The number of bytes of a reply before a cell of it.
pub open spec fn bytes_before(state: ChildBranchMarkers, continues: bool) -> int {
    if continues {
        state.current_assistant_message_source_byte_offset as int
    } else {
        0
    }
}

/// The markers of a cell with further ones.
pub open spec fn with_placed(
    markers: Seq<AgentBranchMarker>,
    placed: Seq<AgentBranchMarker>,
) -> Seq<AgentBranchMarker> {
    if placed.len() == 0 {
        markers
    } else {
        ranking::ranked(markers + placed)
    }
}

/// What becomes of the child branches and of a cell when the cell is shown.
pub open spec fn shown_cell(
    before: ChildBranchMarkers,
    after: ChildBranchMarkers,
    cell: AgentMessageCell,
    shown: AgentMessageCell,
    model: spec_fn(Seq<char>) -> Seq<styled::LineView>,
) -> bool {
    let view = history_cell::message_view(cell);
    let index = reply_index(before, view.continues);
    let lines = lines_before(before, view.continues);
    let pending = before.pending_direct_child_branch_markers@;
    &&& after.pending_direct_child_branch_markers@ == still_pending(
        pending,
        view,
        index,
        lines,
        model,
    )
    &&& shown.branch_markers@ == with_placed(
        cell.branch_markers@,
        newly_placed(pending, view, index, lines, model),
    )
    &&& shown == (AgentMessageCell { branch_markers: shown.branch_markers, ..cell })
    &&& after.next_assistant_history_cell_index == if view.continues {
        before.next_assistant_history_cell_index as int
    } else {
        sum_up_to_max(before.next_assistant_history_cell_index as int, 1)
    }
    &&& after.current_assistant_message_source_line_offset == sum_up_to_max(
        lines,
        view.texts.len() as int,
    )
    &&& after.current_assistant_message_source_byte_offset == sum_up_to_max(
        bytes_before(before, view.continues),
        match view.raw_markdown {
            Some(raw) => text::byte_len(raw) as int,
            None => 0,
        },
    )
}

/// The infos of markers without a place.
pub open spec fn infos(
    markers: Seq<PendingDirectChildBranchMarker>,
    infos: Seq<UnresolvedBranchMarkerInfo>,
) -> bool {
    &&& infos.len() == markers.len()
    &&& forall|i: int|
        0 <= i < infos.len() ==> {
            &&& (#[trigger] infos[i]).branch_depth == markers[i].branch_depth
            &&& infos[i].branch_id_suffix == markers[i].branch_id_suffix
            &&& infos[i].selection_summary == markers[i].selection_summary
        }
}

/// The reason why a marker has no place: the one that was found, or that its reply was
/// never shown.
pub open spec fn final_reason(
    marker: PendingDirectChildBranchMarker,
) -> PendingDirectChildBranchMarkerUnresolvedReason {
    match marker.unresolved_reason {
        Some(reason) => reason,
        None => PendingDirectChildBranchMarkerUnresolvedReason::NeverMatchedAssistantMessageCell,
    }
}

/// The reason why a marker has no place.
pub fn unresolved_reason_of(marker: &PendingDirectChildBranchMarker) -> (reason:
    PendingDirectChildBranchMarkerUnresolvedReason)
    ensures
        reason == final_reason(*marker),
{
    match marker.unresolved_reason {
        Some(reason) => reason,
        None => PendingDirectChildBranchMarkerUnresolvedReason::NeverMatchedAssistantMessageCell,
    }
}

/// Adds markers to a cell, one after the other.
fn add_all(agent_cell: &mut AgentMessageCell, placed: &[AgentBranchMarker])
    ensures
        final(agent_cell).branch_markers@ == with_placed(old(agent_cell).branch_markers@, placed@),
        *final(agent_cell) == (AgentMessageCell {
            branch_markers: final(agent_cell).branch_markers,
            ..*old(agent_cell)
        }),
{
    let ghost before = agent_cell.branch_markers@;
    let mut index: usize = 0;
    while index < placed.len()
        invariant
            index <= placed@.len(),
            before == old(agent_cell).branch_markers@,
            agent_cell.branch_markers@ == with_placed(before, placed@.take(index as int)),
            *agent_cell == (AgentMessageCell {
                branch_markers: agent_cell.branch_markers,
                ..*old(agent_cell)
            }),
        decreases placed@.len() - index,
    {
        let marker = placed[index].copy();
        proof {
            let head = before + placed@.take(index as int);
            let taken = placed@.take(index as int + 1);
            assert(before + taken =~= head.push(marker));
            ranking::law_sorting_twice_is_sorting_once(head, marker);
            if index == 0 {
                assert(head =~= before);
            }
        }
        agent_cell.add_branch_marker(marker);
        index = index + 1;
    }
    assert(placed@.take(placed@.len() as int) =~= placed@);
}

impl ChildBranchMarkers {
    /// Starts over with the child branches of another thread. Where they could not be
    /// loaded, there are none.
    pub fn prepare_direct_child_branch_markers(
        &mut self,
        loaded: Option<Vec<PendingDirectChildBranchMarker>>,
    )
        ensures
            final(self).next_assistant_history_cell_index == 0,
            final(self).current_assistant_message_source_line_offset == 0,
            final(self).current_assistant_message_source_byte_offset == 0,
            match loaded {
                Some(markers) => final(self).pending_direct_child_branch_markers == markers,
                None => final(self).pending_direct_child_branch_markers@.len() == 0,
            },
    {
        self.next_assistant_history_cell_index = 0;
        self.current_assistant_message_source_line_offset = 0;
        self.current_assistant_message_source_byte_offset = 0;
        match loaded {
            Some(markers) => {
                self.pending_direct_child_branch_markers = markers;
            },
            None => {
                self.pending_direct_child_branch_markers = Vec::new();
            },
        }
    }

    /// Gives up the child branches that have no place, and returns the lines that show
    /// them; nothing where there are none.
    pub fn flush_unresolved_direct_child_branch_markers<T: Fn(&str, usize) -> String>(
        &mut self,
        block_style: Style,
        truncate_text: &T,
    ) -> (lines: Option<Vec<Line>>)
        requires
            styled::is_truncation(*truncate_text),
        ensures
            final(self).pending_direct_child_branch_markers@.len() == 0,
            *final(self) == (ChildBranchMarkers {
                pending_direct_child_branch_markers: final(self).pending_direct_child_branch_markers,
                ..*old(self)
            }),
            match lines {
                None => old(self).pending_direct_child_branch_markers@.len() == 0,
                Some(lines) => {
                    &&& old(self).pending_direct_child_branch_markers@.len() > 0
                    &&& exists|unresolved: Seq<UnresolvedBranchMarkerInfo>| #[trigger]
                        infos(old(self).pending_direct_child_branch_markers@, unresolved)
                            && forall|model: spec_fn(Seq<char>, int) -> Seq<char>| #[trigger]
                            styled::truncates_as(*truncate_text, model) ==> styled::line_views(
                                lines@,
                            ) == agent_markers::unresolved_event(unresolved, block_style, model)
                },
            },
    {
        if self.pending_direct_child_branch_markers.len() == 0 {
            return None;
        }
        let ghost markers = self.pending_direct_child_branch_markers@;
        let mut unresolved: Vec<UnresolvedBranchMarkerInfo> = Vec::new();
        let mut index: usize = 0;
        while index < self.pending_direct_child_branch_markers.len()
            invariant
                *self == *old(self),
                markers == self.pending_direct_child_branch_markers@,
                index <= markers.len(),
                infos(markers.take(index as int), unresolved@),
            decreases markers.len() - index,
        {
            let marker = &self.pending_direct_child_branch_markers[index];
            unresolved.push(
                UnresolvedBranchMarkerInfo {
                    branch_depth: marker.branch_depth,
                    branch_id_suffix: marker.branch_id_suffix.clone(),
                    selection_summary: marker.selection_summary.clone(),
                },
            );
            index = index + 1;
        }
        assert(markers.take(markers.len() as int) =~= markers);
        self.pending_direct_child_branch_markers = Vec::new();
        let lines = new_unresolved_branch_markers_event(&unresolved, block_style, truncate_text);
        assert(infos(markers, unresolved@));
        Some(lines)
    }

    /// Places the child branches of a reply in a cell of it that is about to be shown.
    pub fn decorate_inserted_agent_history_cell<F: Fn(&str) -> Vec<Line>>(
        &mut self,
        cell: &mut HistoryCell,
        append_markdown: &F,
    )
        requires
            styled::is_renderer(*append_markdown),
        ensures
            match (*old(cell), *final(cell)) {
                (HistoryCell::Message(before), HistoryCell::Message(after)) => forall|
                    model: spec_fn(Seq<char>) -> Seq<styled::LineView>,
                | #[trigger]
                    styled::renders_as(*append_markdown, model) ==> shown_cell(
                        *old(self),
                        *final(self),
                        before,
                        after,
                        model,
                    ),
                (HistoryCell::Message(_), _) => false,
                _ => *final(cell) == *old(cell) && *final(self) == *old(self),
            },
    {
        match cell {
            HistoryCell::Message(agent_cell) => self.decorate_message_cell(
                agent_cell,
                append_markdown,
            ),
            _ => {},
        }
    }

    /// The index of the reply that a cell belongs to which is shown next.
    pub fn current_reply_index(&self, agent_cell: &AgentMessageCell) -> (index: usize)
        ensures
            index == reply_index(*self, history_cell::message_view(*agent_cell).continues),
    {
        if agent_cell.is_stream_continuation() {
            self.next_assistant_history_cell_index.saturating_sub(1)
        } else {
            self.next_assistant_history_cell_index
        }
    }

    /// Places the child branches of a reply in a message cell of it.
    fn decorate_message_cell<F: Fn(&str) -> Vec<Line>>(
        &mut self,
        agent_cell: &mut AgentMessageCell,
        append_markdown: &F,
    )
        requires
            styled::is_renderer(*append_markdown),
        ensures
            forall|model: spec_fn(Seq<char>) -> Seq<styled::LineView>| #[trigger]
                styled::renders_as(*append_markdown, model) ==> shown_cell(
                    *old(self),
                    *final(self),
                    *old(agent_cell),
                    *final(agent_cell),
                    model,
                ),
    {
        let ghost state = *self;
        let ghost view = history_cell::message_view(*agent_cell);
        let source_lines = agent_cell.source_lines_plain_text();
        let line_count: usize = source_lines.len();
        assert(view.texts.len() == line_count) by {
            assert(strings::texts(source_lines@).len() == source_lines@.len());
        }
        let continues = agent_cell.is_stream_continuation();
        let current_index: usize = self.current_reply_index(agent_cell);
        if !continues {
            self.current_assistant_message_source_line_offset = 0;
            self.current_assistant_message_source_byte_offset = 0;
            self.next_assistant_history_cell_index = current_index.saturating_add(1);
        }
        let current_line_offset: usize = self.current_assistant_message_source_line_offset;
        let ghost pending = self.pending_direct_child_branch_markers@;
        let mut kept: Vec<PendingDirectChildBranchMarker> = Vec::new();
        let mut placed: Vec<AgentBranchMarker> = Vec::new();
        let mut index: usize = 0;
        let ghost started = *self;
        assert(pending.take(0) =~= Seq::<PendingDirectChildBranchMarker>::empty());
        while index < self.pending_direct_child_branch_markers.len()
            invariant
                *self == started,
                pending == self.pending_direct_child_branch_markers@,
                index <= pending.len(),
                *agent_cell == *old(agent_cell),
                view == history_cell::message_view(*agent_cell),
                strings::texts(source_lines@) == view.texts,
                styled::is_renderer(*append_markdown),
                forall|model: spec_fn(Seq<char>) -> Seq<styled::LineView>| #[trigger]
                    styled::renders_as(*append_markdown, model) ==> {
                        &&& kept@ == still_pending(
                            pending.take(index as int),
                            view,
                            current_index as int,
                            current_line_offset as int,
                            model,
                        )
                        &&& placed@ == newly_placed(
                            pending.take(index as int),
                            view,
                            current_index as int,
                            current_line_offset as int,
                            model,
                        )
                    },
            decreases pending.len() - index,
        {
            let marker = &self.pending_direct_child_branch_markers[index];
            proof {
                let taken = pending.take(index as int + 1);
                assert(taken.drop_last() =~= pending.take(index as int));
                assert(taken.last() == *marker);
            }
            match place_marker(
                marker,
                agent_cell,
                &source_lines,
                current_index,
                current_line_offset,
                append_markdown,
            ) {
                Placing::Elsewhere => {
                    kept.push(marker.copy());
                },
                Placing::Unresolved(reason) => {
                    let mut left = marker.copy();
                    left.unresolved_reason = Some(reason);
                    kept.push(left);
                },
                Placing::Placed(line, offset) => {
                    placed.push(
                        AgentBranchMarker {
                            source_line_index: line,
                            source_byte_offset: offset,
                            branch_depth: marker.branch_depth,
                            branch_id_suffix: marker.branch_id_suffix.clone(),
                            selection_summary: marker.selection_summary.clone(),
                        },
                    );
                },
            }
            index = index + 1;
        }
        assert(pending.take(pending.len() as int) =~= pending);
        self.pending_direct_child_branch_markers = kept;
        add_all(agent_cell, &placed);
        self.current_assistant_message_source_line_offset =
        self.current_assistant_message_source_line_offset.saturating_add(line_count);
        let raw_len: usize = match agent_cell.raw_markdown_text() {
            Some(raw) => byte_count(raw),
            None => 0,
        };
        self.current_assistant_message_source_byte_offset =
        self.current_assistant_message_source_byte_offset.saturating_add(raw_len);
    }
}

/// Every child branch either gets a place in a cell or is still without one, and every
/// place lies in the cell.
pub proof fn law_markers_are_placed_or_kept(
    markers: Seq<PendingDirectChildBranchMarker>,
    cell: history_cell::MessageView,
    current_index: int,
    line_offset: int,
    model: spec_fn(Seq<char>) -> Seq<styled::LineView>,
)
    requires
        0 <= line_offset,
    ensures
        still_pending(markers, cell, current_index, line_offset, model).len() + newly_placed(
            markers,
            cell,
            current_index,
            line_offset,
            model,
        ).len() == markers.len(),
        forall|i: int|
            0 <= i < markers.len() ==> match placement(
                #[trigger] markers[i],
                cell,
                current_index,
                line_offset,
                model,
            ) {
                Placement::Placed(line, _) => 0 <= line < cell.texts.len()
                    && markers[i].assistant_message_index == current_index,
                _ => true,
            },
    decreases markers.len(),
{
    if markers.len() > 0 {
        let head = markers.drop_last();
        law_markers_are_placed_or_kept(head, cell, current_index, line_offset, model);
        assert forall|i: int| 0 <= i < markers.len() implies match placement(
            #[trigger] markers[i],
            cell,
            current_index,
            line_offset,
            model,
        ) {
            Placement::Placed(line, _) => 0 <= line < cell.texts.len()
                && markers[i].assistant_message_index == current_index,
            _ => true,
        } by {
            if let Some(raw) = cell.raw_markdown {
                marker_position::law_places_are_displayed(
                    raw,
                    cell.texts,
                    cell.source_segments,
                    markers[i].source_line_index as int,
                    markers[i].source_byte_offset as int,
                    model,
                );
            }
        }
    }
}

// ---------------------------------------------------------------------------
// Which marker goes where
// ---------------------------------------------------------------------------
/// A marker is looked for in its own reply only. There it has no place without the source of
/// the reply or where its place is not displayed; otherwise it moves from that place to the
/// end of its sentence.
pub proof fn law_markers_go_to_their_reply(
    marker: PendingDirectChildBranchMarker,
    cell: history_cell::MessageView,
    current_index: int,
    line_offset: int,
    model: spec_fn(Seq<char>) -> Seq<styled::LineView>,
)
    requires
        0 <= line_offset,
        line_offset + cell.texts.len() <= usize::MAX,
    ensures
        ({
            let own = marker.assistant_message_index == current_index;
            let found = placement(marker, cell, current_index, line_offset, model);
            let place = marker_position::marker_place(
                cell.raw_markdown->0,
                cell.texts,
                cell.source_segments,
                marker.source_line_index as int,
                marker.source_byte_offset as int,
                model,
            );
            &&& found is Elsewhere <==> !own
            &&& own && cell.raw_markdown is None ==> found == Placement::Unresolved(
                PendingDirectChildBranchMarkerUnresolvedReason::MissingRawMarkdown,
            )
            &&& own && cell.raw_markdown is Some && place is None ==> found
                == Placement::Unresolved(
                PendingDirectChildBranchMarkerUnresolvedReason::SourcePositionCouldNotBeMapped,
            )
            &&& own && cell.raw_markdown is Some ==> (place matches Some((line, offset)) ==> found
                == Placement::Placed(
                line,
                text::byte_pos(
                    cell.texts[line],
                    marker_position::snapped(cell.texts[line], offset),
                ),
            ))
        }),
{
    if cell.raw_markdown is Some {
        marker_position::law_places_are_displayed(
            cell.raw_markdown->0,
            cell.texts,
            cell.source_segments,
            marker.source_line_index as int,
            marker.source_byte_offset as int,
            model,
        );
    }
}

/// One more marker: placed, it is no longer pending and is shown with its own depth, name and
/// summary. Not placed, it stays pending with the reason, and one of another reply stays as
/// it was.
pub proof fn law_placing_keeps_the_branch(
    markers: Seq<PendingDirectChildBranchMarker>,
    marker: PendingDirectChildBranchMarker,
    cell: history_cell::MessageView,
    current_index: int,
    line_offset: int,
    model: spec_fn(Seq<char>) -> Seq<styled::LineView>,
)
    ensures
        ({
            let old_pending = still_pending(markers, cell, current_index, line_offset, model);
            let old_placed = newly_placed(markers, cell, current_index, line_offset, model);
            let all = markers.push(marker);
            let pending = still_pending(all, cell, current_index, line_offset, model);
            let placed = newly_placed(all, cell, current_index, line_offset, model);
            match placement(marker, cell, current_index, line_offset, model) {
                Placement::Placed(line, offset) => {
                    &&& pending == old_pending
                    &&& placed.len() == old_placed.len() + 1
                    &&& placed.drop_last() == old_placed
                    &&& placed.last().source_line_index == line as usize
                    &&& placed.last().source_byte_offset == offset as usize
                    &&& placed.last().branch_depth == marker.branch_depth
                    &&& placed.last().branch_id_suffix == marker.branch_id_suffix
                    &&& placed.last().selection_summary == marker.selection_summary
                },
                Placement::Unresolved(reason) => {
                    &&& placed == old_placed
                    &&& pending.len() == old_pending.len() + 1
                    &&& pending.drop_last() == old_pending
                    &&& pending.last() == (PendingDirectChildBranchMarker {
                        unresolved_reason: Some(reason),
                        ..marker
                    })
                },
                Placement::Elsewhere => {
                    &&& placed == old_placed
                    &&& pending == old_pending.push(marker)
                },
            }
        }),
{
    assert(markers.push(marker).drop_last() =~= markers);
}

/// A cell that continues a reply belongs to the reply of the cell before it and goes on
/// counting its lines and bytes; any other cell starts the next reply and counts anew.
pub proof fn law_continuing_cells_belong_to_the_same_reply(
    before: ChildBranchMarkers,
    after: ChildBranchMarkers,
    cell: AgentMessageCell,
    shown: AgentMessageCell,
    model: spec_fn(Seq<char>) -> Seq<styled::LineView>,
)
    requires
        shown_cell(before, after, cell, shown, model),
        before.next_assistant_history_cell_index < usize::MAX,
        before.current_assistant_message_source_line_offset + cell.lines@.len() <= usize::MAX,
    ensures
        cell.is_first_line ==> {
            &&& reply_index(before, false) == before.next_assistant_history_cell_index
            &&& after.next_assistant_history_cell_index
                == before.next_assistant_history_cell_index + 1
            &&& reply_index(after, true) == reply_index(before, false)
            &&& reply_index(after, false) == reply_index(before, false) + 1
            &&& lines_before(after, true) == cell.lines@.len()
        },
        !cell.is_first_line ==> {
            &&& reply_index(after, true) == reply_index(before, true)
            &&& reply_index(after, false) == reply_index(before, false)
            &&& lines_before(after, true) == lines_before(before, true) + cell.lines@.len()
        },
        lines_before(after, false) == 0,
        bytes_before(after, false) == 0,
{
    assert(history_cell::message_view(cell).texts.len() == cell.lines@.len());
}

/// Showing a cell changes nothing of it but its markers. Those it had stay, the newly placed
/// ones join them, and all are in the order of the text.
pub proof fn law_shown_cells_keep_their_markers(
    markers: Seq<AgentBranchMarker>,
    placed: Seq<AgentBranchMarker>,
    i: int,
    j: int,
)
    requires
        placed.len() > 0,
        0 <= i < j < with_placed(markers, placed).len(),
    ensures
        with_placed(markers, Seq::<AgentBranchMarker>::empty()) == markers,
        with_placed(markers, placed).to_multiset() == (markers + placed).to_multiset(),
        ({
            let a = with_placed(markers, placed)[i];
            let b = with_placed(markers, placed)[j];
            a.source_line_index < b.source_line_index || (a.source_line_index
                == b.source_line_index && a.source_byte_offset <= b.source_byte_offset)
        }),
{
    ranking::law_sorting_is_stable(markers + placed);
    assert(with_placed(markers, placed)[i].not_after(with_placed(markers, placed)[j]));
}

/// A marker that was never looked for in its reply says so in the end; any other keeps the
/// last reason that it was given.
pub proof fn law_left_markers_have_a_reason(marker: PendingDirectChildBranchMarker)
    ensures
        marker.unresolved_reason is None ==> final_reason(marker)
            == PendingDirectChildBranchMarkerUnresolvedReason::NeverMatchedAssistantMessageCell,
        marker.unresolved_reason matches Some(reason) ==> final_reason(marker) == reason,
{
}

/// The bytes of a reply are counted over all its cells that know their source.
pub proof fn law_bytes_are_counted_over_the_reply(
    before: ChildBranchMarkers,
    after: ChildBranchMarkers,
    cell: AgentMessageCell,
    shown: AgentMessageCell,
    model: spec_fn(Seq<char>) -> Seq<styled::LineView>,
)
    requires
        shown_cell(before, after, cell, shown, model),
        cell.raw_markdown is Some ==> before.current_assistant_message_source_byte_offset
            + text::byte_len(cell.raw_markdown->0@) <= usize::MAX,
    ensures
        ({
            let own = if cell.raw_markdown is Some {
                text::byte_len(cell.raw_markdown->0@) as int
            } else {
                0
            };
            &&& cell.is_first_line ==> bytes_before(after, true) == own
            &&& !cell.is_first_line ==> bytes_before(after, true)
                == before.current_assistant_message_source_byte_offset + own
        }),
{
}

/// What is told of the markers that are left over is their depth, name and summary, one for
/// one.
pub proof fn law_left_markers_are_told(
    markers: Seq<PendingDirectChildBranchMarker>,
    told: Seq<UnresolvedBranchMarkerInfo>,
    i: int,
)
    requires
        infos(markers, told),
        0 <= i < markers.len(),
    ensures
        told.len() == markers.len(),
        told[i].branch_depth == markers[i].branch_depth,
        told[i].branch_id_suffix == markers[i].branch_id_suffix,
        told[i].selection_summary == markers[i].selection_summary,
{
}

} // verus!
