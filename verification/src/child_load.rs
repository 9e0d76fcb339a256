//! Loading the child branches of a thread: which page is asked for next, whether the turns
//! of the thread are needed, and which markers there are in the end.
use crate::pending_marker;
use crate::pending_marker::{
    direct_child_branch_markers_for_thread, latest_assistant_message_index_for_thread,
    needs_latest_assistant_message_index, PendingDirectChildBranchMarker,
};
use crate::protocol;
use crate::protocol::Turn;
use crate::ranking;
use crate::threads;
use crate::threads::{
    child_thread_list_params, collect_child_threads, Thread, ThreadId, ThreadListParams, ThreadPage,
};
use vstd::prelude::*;

verus! {

/// The child branches of a thread while they are loaded.
#[derive(Clone, Debug, PartialEq, Eq)]
pub struct ChildLoad {
    pub parent_thread_id: ThreadId,
    pub children: Vec<Thread>,
}

/// What is to be done next.
#[derive(Clone, Debug, PartialEq, Eq)]
pub enum ChildLoadAction {
    ListThreads(ThreadListParams),
    ReadTurns(ThreadId),
    /// The markers are known; there are none where they could not be loaded.
    Finish(Option<Vec<PendingDirectChildBranchMarker>>),
}

/// Whether an action asks for the page at a cursor.
pub open spec fn asks_for_page(action: ChildLoadAction, cursor: Option<String>) -> bool {
    action matches ChildLoadAction::ListThreads(params) && threads::asks_for_children(
        params,
        cursor,
    )
}

/// Whether an action ends with the markers of some children.
pub open spec fn ends_with_markers(
    action: ChildLoadAction,
    children: Seq<Thread>,
    latest: Option<usize>,
) -> bool {
    action matches ChildLoadAction::Finish(Some(markers)) && pending_marker::are_sorted_markers_of(
        markers@,
        children,
        latest,
    )
}

/// Whether a child branch was forked from the latest reply, whose index is then needed.
pub open spec fn needs_latest(children: Seq<Thread>) -> bool {
    exists|i: int|
        0 <= i < children.len() && pending_marker::forked_from_latest(#[trigger] children[i])
}

/// The index of the latest reply, where the turns could be read and there is one.
pub open spec fn latest_index(turns: Option<Vec<Turn>>) -> Option<usize> {
    match turns {
        Some(turns) => match pending_marker::latest_message_index(turns@) {
            Some(index) => Some(index as usize),
            None => None,
        },
        None => None,
    }
}

/// Starts loading the child branches of a thread.
pub fn start_child_load(parent_thread_id: ThreadId) -> (started: (ChildLoad, ChildLoadAction))
    ensures
        started.0.parent_thread_id == parent_thread_id,
        started.0.children@.len() == 0,
        asks_for_page(started.1, None),
{
    (
        ChildLoad { parent_thread_id, children: Vec::new() },
        ChildLoadAction::ListThreads(child_thread_list_params(None)),
    )
}

impl ChildLoad {
    /// Takes in a page of threads that was asked for, where it could be loaded.
    pub fn on_page(&mut self, page: Option<ThreadPage>) -> (action: ChildLoadAction)
        ensures
            match page {
                None => {
                    &&& *final(self) == *old(self)
                    &&& action == ChildLoadAction::Finish(None)
                },
                Some(page) => {
                    &&& final(self).parent_thread_id == old(self).parent_thread_id
                    &&& final(self).children@ == old(self).children@ + page.data@.filter(
                        threads::forked_from(old(self).parent_thread_id@),
                    )
                    &&& match page.next_cursor {
                        Some(cursor) => asks_for_page(action, Some(cursor)),
                        None => if needs_latest(final(self).children@) {
                            action == ChildLoadAction::ReadTurns(old(self).parent_thread_id)
                        } else {
                            ends_with_markers(action, final(self).children@, None)
                        },
                    }
                },
            },
    {
        let page = match page {
            Some(page) => page,
            None => return ChildLoadAction::Finish(None),
        };
        let parent = self.parent_thread_id.copy();
        collect_child_threads(&mut self.children, &page.data, parent.as_text());
        match page.next_cursor {
            Some(cursor) => ChildLoadAction::ListThreads(child_thread_list_params(Some(cursor))),
            None => if needs_latest_assistant_message_index(&self.children) {
                ChildLoadAction::ReadTurns(parent)
            } else {
                ChildLoadAction::Finish(
                    Some(direct_child_branch_markers_for_thread(&self.children, None)),
                )
            },
        }
    }

    /// Takes in the turns of the thread, where they could be read.
    pub fn on_turns(&self, turns: Option<Vec<Turn>>) -> (action: ChildLoadAction)
        ensures
            ends_with_markers(action, self.children@, latest_index(turns)),
    {
        let latest: Option<usize> = match turns {
            Some(turns) => latest_assistant_message_index_for_thread(&turns),
            None => None,
        };
        ChildLoadAction::Finish(
            Some(direct_child_branch_markers_for_thread(&self.children, latest)),
        )
    }
}

/// Threads of several pages are the children among all of them, in their order: how they
/// are spread over the pages makes no difference.
pub proof fn law_pages_make_no_difference(first: Seq<Thread>, second: Seq<Thread>, parent: Seq<char>)
    ensures
        first.filter(threads::forked_from(parent)) + second.filter(threads::forked_from(parent))
            == (first + second).filter(threads::forked_from(parent)),
    decreases second.len(),
{
    reveal(Seq::filter);
    let pred = threads::forked_from(parent);
    if second.len() == 0 {
        assert(first + second =~= first);
        assert(first.filter(pred) + second.filter(pred) =~= first.filter(pred));
    } else {
        law_pages_make_no_difference(first, second.drop_last(), parent);
        assert((first + second).drop_last() =~= first + second.drop_last());
        assert((first + second).last() == second.last());
        assert(first.filter(pred) + second.filter(pred) =~= (first + second).filter(pred));
    }
}

/// The turns are needed exactly where some child forked from the latest message, and the
/// latest message is known only where they could be read.
pub proof fn law_turns_are_needed_for_the_latest_message(
    children: Seq<Thread>,
    turns: Option<Vec<Turn>>,
)
    ensures
        needs_latest(children) <==> exists|i: int|
            0 <= i < children.len() && (#[trigger] children[i]).branch_origin_snapshot is Some
                && children[i].branch_origin_snapshot->0 is LatestAssistantReadAnchor,
        turns is None ==> latest_index(turns) is None,
        turns matches Some(turns) ==> {
            let count = protocol::turn_messages(turns@).len();
            &&& count == 0 ==> latest_index(Some(turns)) is None
            &&& 0 < count <= usize::MAX ==> latest_index(Some(turns)) == Some((count - 1) as usize)
        },
{
}

/// Loading ends with the markers of the children, in the order of the text: by message, then
/// by piece and then by offset.
pub proof fn law_loaded_markers_are_in_order(
    action: ChildLoadAction,
    children: Seq<Thread>,
    latest: Option<usize>,
    i: int,
    j: int,
)
    requires
        ends_with_markers(action, children, latest),
    ensures
        action matches ChildLoadAction::Finish(Some(markers)) && {
            &&& markers@.len() <= children.len()
            &&& 0 <= i < j < markers@.len() ==> {
                let a = markers@[i];
                let b = markers@[j];
                ||| a.assistant_message_index < b.assistant_message_index
                ||| a.assistant_message_index == b.assistant_message_index && a.source_line_index
                    < b.source_line_index
                ||| a.assistant_message_index == b.assistant_message_index && a.source_line_index
                    == b.source_line_index && a.source_byte_offset <= b.source_byte_offset
            }
        },
{
    if let ChildLoadAction::Finish(Some(markers)) = action {
        let unsorted = choose|unsorted: Seq<PendingDirectChildBranchMarker>| #[trigger]
            pending_marker::are_markers_of(unsorted, children, latest) && markers@
                == ranking::ranked(unsorted);
        ranking::law_sorting_is_stable(unsorted);
        children.lemma_filter_len(pending_marker::placeable(latest));
        if 0 <= i < j < markers@.len() {
            pending_marker::law_pending_markers_are_in_order(markers@, children, latest, i, j);
        }
    }
}

/// A page is asked for with its cursor, and like every page of children.
pub proof fn law_pages_are_asked_for_with_their_cursor(
    action: ChildLoadAction,
    cursor: Option<String>,
)
    requires
        asks_for_page(action, cursor),
    ensures
        action matches ChildLoadAction::ListThreads(params) && {
            &&& params.cursor == cursor
            &&& params.limit == Some(100u32)
            &&& params.sort_key == Some(threads::ThreadSortKey::UpdatedAt)
            &&& params.archived == Some(false)
        },
{
}

} // verus!
