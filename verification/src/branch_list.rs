//! Loading what the branch commands show: which thread or page is asked for next, and what
//! is shown in the end.
use crate::branch_navigator;
use crate::branch_navigator::{
    branch_info_lines, branch_row, child_branch_row, normalize_branch_navigator_rows, BranchNavigatorRole,
    BranchNavigatorRow,
};
use crate::styled;
use crate::styled::Line;
use crate::threads;
use crate::threads::{
    child_thread_list_params, is_forked_from, parent_thread_id, Thread, ThreadId, ThreadListParams,
    ThreadPage,
};
use vstd::prelude::*;
use vstd::string::*;

verus! {

// ---------------------------------------------------------------------------
// Branch info
// ---------------------------------------------------------------------------
/// A message about something that failed.
fn failure(message: &str, error: &str) -> (text: String)
    ensures
        text@ == message@ + error@,
{
    let mut text = message.to_owned();
    text.append(error);
    text
}

/// The thread to read for the branch info; a complaint before the conversation has started.
pub fn start_branch_info(current_thread_id: Option<&ThreadId>) -> (started: Result<ThreadId, String>)
    ensures
        match (current_thread_id, started) {
            (Some(current), Ok(asked)) => asked == *current,
            (None, Err(message)) => message@
                == "Branch info is unavailable before the current conversation has started."@,
            _ => false,
        },
{
    match current_thread_id {
        Some(current) => Ok(current.copy()),
        None => Err(
            "Branch info is unavailable before the current conversation has started.".to_owned(),
        ),
    }
}

/// The lines of the branch info; a complaint where the thread could not be read.
pub fn show_branch_info(
    current_thread_id: &ThreadId,
    read: Result<Thread, String>,
) -> (shown: Result<Vec<Line>, String>)
    ensures
        match (read, shown) {
            (Ok(thread), Ok(lines)) => styled::line_views(lines@) == branch_navigator::info_lines(
                current_thread_id@,
                thread,
            ),
            (Err(error), Err(message)) => message@ == "Failed to load branch info: "@ + error@,
            _ => false,
        },
{
    match read {
        Ok(thread) => Ok(branch_info_lines(current_thread_id, &thread)),
        Err(error) => Err(failure("Failed to load branch info: ", error.as_str())),
    }
}

// ---------------------------------------------------------------------------
// Branch list
// ---------------------------------------------------------------------------
/// How far the branch list has come.
#[derive(Clone, Copy, Debug, PartialEq, Eq, Structural)]
pub enum BranchListStage {
    /// The current thread is being read.
    Current,
    /// The ancestors are being read.
    Ancestors,
    /// The children are being listed.
    Children,
    /// Nothing is left to do.
    Finished,
}

/// The branch list while it is loaded. `ancestors` starts with the parent.
#[derive(Clone, Debug, PartialEq, Eq)]
pub struct BranchList {
    pub current_thread_id: ThreadId,
    pub stage: BranchListStage,
    pub current: Option<Thread>,
    pub ancestors: Vec<BranchNavigatorRow>,
    pub parent: Option<ThreadId>,
    pub children: Vec<BranchNavigatorRow>,
}

/// What is to be done next.
#[derive(Clone, Debug, PartialEq, Eq)]
pub enum BranchListAction {
    ReadThread(ThreadId),
    ListThreads(ThreadListParams),
    ShowError(String),
    ShowSelection { rows: Vec<BranchNavigatorRow>, current_row_index: usize },
}

/// Whether one of some rows is that of a thread.
pub open spec fn visited(rows: Seq<BranchNavigatorRow>, thread_id: Seq<char>) -> bool {
    exists|i: int| 0 <= i < rows.len() && (#[trigger] rows[i]).thread_id@ == thread_id
}

/// Whether all rows are of different threads.
pub open spec fn all_different(rows: Seq<BranchNavigatorRow>) -> bool {
    forall|i: int, j: int|
        0 <= i < j < rows.len() ==> (#[trigger] rows[i]).thread_id@ != (
        #[trigger] rows[j]).thread_id@
}

/// Whether there is an ancestor to read: the parent of the last one that was read, unless
/// it was read already.
pub open spec fn ancestor_is_left(list: BranchList) -> bool {
    list.parent matches Some(parent) && !visited(list.ancestors@, parent@)
}

/// Whether a branch list is in order: no thread is an ancestor twice, and it has what its
/// stage needs.
pub open spec fn well_formed(list: BranchList) -> bool {
    &&& all_different(list.ancestors@)
    &&& list.stage is Current ==> list.ancestors@.len() == 0 && list.children@.len() == 0
    &&& list.stage is Ancestors ==> list.current is Some && ancestor_is_left(list)
        && list.children@.len() == 0
    &&& list.stage is Children ==> list.current is Some
}

/// Whether an action asks for what a branch list needs next: the next ancestor, or the
/// first children where there is none.
pub open spec fn asks_for_the_next(list: BranchList, action: BranchListAction) -> bool {
    if ancestor_is_left(list) {
        &&& list.stage is Ancestors
        &&& action matches BranchListAction::ReadThread(thread_id)
        &&& list.parent == Some(thread_id)
    } else {
        &&& list.stage is Children
        &&& action matches BranchListAction::ListThreads(params)
        &&& threads::asks_for_children(params, None)
    }
}

/// Whether an action complains about something.
pub open spec fn complains(action: BranchListAction, message: Seq<char>) -> bool {
    action matches BranchListAction::ShowError(text) && text@ == message
}

/// The rows of children with a well-formed identity, in their order.
pub open spec fn child_rows(children: Seq<Thread>) -> Seq<BranchNavigatorRow>
    decreases children.len(),
{
    if children.len() == 0 {
        Seq::<BranchNavigatorRow>::empty()
    } else {
        match branch_navigator::child_row(children.last()) {
            Some(row) => child_rows(children.drop_last()).push(row),
            None => child_rows(children.drop_last()),
        }
    }
}

/// All rows of a branch list: the ancestors from the first one down, the current thread
/// and its children, with the depths and roles of their places.
pub open spec fn all_rows(list: BranchList) -> Seq<BranchNavigatorRow> {
    branch_navigator::normal_rows(
        list.ancestors@.reverse().push(
            branch_navigator::row_of(
                list.current_thread_id,
                list.current->0,
                BranchNavigatorRole::Current,
            ),
        ) + list.children@,
        list.ancestors@.len() as int,
    )
}

/// Starts the branch list of the current thread, which is to be read first; a complaint
/// before the conversation has started.
pub fn start_branch_list(current_thread_id: Option<&ThreadId>) -> (started: Result<
    (BranchList, BranchListAction),
    String,
>)
    ensures
        match (current_thread_id, started) {
            (Some(current), Ok((list, action))) => {
                &&& list.current_thread_id == *current
                &&& list.stage is Current
                &&& well_formed(list)
                &&& action == BranchListAction::ReadThread(*current)
            },
            (None, Err(message)) => message@
                == "Branch list is unavailable before the current conversation has started."@,
            _ => false,
        },
{
    match current_thread_id {
        Some(current) => Ok(
            (
                BranchList {
                    current_thread_id: current.copy(),
                    stage: BranchListStage::Current,
                    current: None,
                    ancestors: Vec::new(),
                    parent: None,
                    children: Vec::new(),
                },
                BranchListAction::ReadThread(current.copy()),
            ),
        ),
        None => Err(
            "Branch list is unavailable before the current conversation has started.".to_owned(),
        ),
    }
}

/// Whether one of some rows is that of a thread.
fn is_visited(rows: &[BranchNavigatorRow], thread_id: &ThreadId) -> (yes: bool)
    ensures
        yes == visited(rows@, thread_id@),
{
    let mut index: usize = 0;
    while index < rows.len()
        invariant
            index <= rows@.len(),
            forall|i: int| 0 <= i < index ==> (#[trigger] rows@[i]).thread_id@ != thread_id@,
        decreases rows@.len() - index,
    {
        if rows[index].thread_id.is_same(thread_id) {
            assert(rows@[index as int].thread_id@ == thread_id@);
            return true;
        }
        index = index + 1;
    }
    false
}

/// The rows in the other order.
fn reversed_rows(rows: &[BranchNavigatorRow]) -> (reversed: Vec<BranchNavigatorRow>)
    ensures
        reversed@ == rows@.reverse(),
{
    let mut reversed: Vec<BranchNavigatorRow> = Vec::new();
    let mut left: usize = rows.len();
    while left > 0
        invariant
            left <= rows@.len(),
            reversed@ =~= rows@.reverse().take(rows@.len() - left),
        decreases left,
    {
        left = left - 1;
        reversed.push(rows[left].copy());
    }
    assert(reversed@ =~= rows@.reverse());
    reversed
}

/// Adds the rows of the children of a page.
fn add_child_rows(rows: &mut Vec<BranchNavigatorRow>, page: &[Thread], parent: &str)
    ensures
        final(rows)@ == old(rows)@ + child_rows(page@.filter(threads::forked_from(parent@))),
{
    let mut index: usize = 0;
    proof {
        reveal(Seq::filter);
        assert(page@.take(0) =~= Seq::<Thread>::empty());
        assert(rows@ =~= old(rows)@ + child_rows(
            page@.take(0).filter(threads::forked_from(parent@)),
        ));
    }
    while index < page.len()
        invariant
            index <= page@.len(),
            rows@ == old(rows)@ + child_rows(
                page@.take(index as int).filter(threads::forked_from(parent@)),
            ),
        decreases page@.len() - index,
    {
        let ghost head = page@.take(index as int).filter(threads::forked_from(parent@));
        let ghost taken = page@.take(index as int + 1);
        proof {
            reveal(Seq::filter);
            assert(taken.drop_last() =~= page@.take(index as int));
            assert(taken.last() == page@[index as int]);
        }
        if is_forked_from(&page[index], parent) {
            assert(head.push(page@[index as int]).drop_last() =~= head);
            if let Some(row) = child_branch_row(&page[index]) {
                rows.push(row);
            }
        }
        assert(rows@ =~= old(rows)@ + child_rows(taken.filter(threads::forked_from(parent@))));
        index = index + 1;
    }
    assert(page@.take(page@.len() as int) =~= page@);
}

impl BranchList {
    /// Asks for what is needed next.
    fn ask_for_the_next(&mut self) -> (action: BranchListAction)
        requires
            all_different(old(self).ancestors@),
            old(self).current is Some,
            old(self).children@.len() == 0,
        ensures
            *final(self) == (BranchList { stage: final(self).stage, ..*old(self) }),
            asks_for_the_next(*final(self), action),
            well_formed(*final(self)),
    {
        if let Some(parent) = &self.parent {
            if !is_visited(&self.ancestors, parent) {
                let asked = parent.copy();
                self.stage = BranchListStage::Ancestors;
                return BranchListAction::ReadThread(asked);
            }
        }
        self.stage = BranchListStage::Children;
        BranchListAction::ListThreads(child_thread_list_params(None))
    }

    /// Takes in a thread that was asked for.
    pub fn on_thread(&mut self, read: Result<Thread, String>) -> (action: BranchListAction)
        requires
            well_formed(*old(self)),
            old(self).stage is Current || old(self).stage is Ancestors,
        ensures
            well_formed(*final(self)),
            final(self).current_thread_id == old(self).current_thread_id,
            final(self).children == old(self).children,
            match read {
                Err(error) => {
                    &&& *final(self) == (BranchList {
                        stage: BranchListStage::Finished,
                        ..*old(self)
                    })
                    &&& complains(
                        action,
                        if old(self).stage is Current {
                            "Failed to load current branch: "@ + error@
                        } else {
                            "Failed to load branch ancestry: "@ + error@
                        },
                    )
                },
                Ok(thread) => {
                    &&& asks_for_the_next(*final(self), action)
                    &&& final(self).parent == threads::parent_of(thread)
                    &&& if old(self).stage is Current {
                        &&& final(self).current == Some(thread)
                        &&& final(self).ancestors == old(self).ancestors
                    } else {
                        &&& final(self).current == old(self).current
                        &&& final(self).ancestors@ == old(self).ancestors@.push(
                            branch_navigator::row_of(
                                old(self).parent->0,
                                thread,
                                BranchNavigatorRole::Ancestor,
                            ),
                        )
                    }
                },
            },
    {
        let is_current = self.stage == BranchListStage::Current;
        match read {
            Err(error) => {
                self.stage = BranchListStage::Finished;
                if is_current {
                    BranchListAction::ShowError(
                        failure("Failed to load current branch: ", error.as_str()),
                    )
                } else {
                    BranchListAction::ShowError(
                        failure("Failed to load branch ancestry: ", error.as_str()),
                    )
                }
            },
            Ok(thread) => {
                let next_parent = parent_thread_id(&thread);
                if is_current {
                    self.current = Some(thread);
                } else {
                    let ghost before = self.ancestors@;
                    if let Some(parent) = &self.parent {
                        let row = branch_row(
                            parent.copy(),
                            &thread,
                            BranchNavigatorRole::Ancestor,
                        );
                        self.ancestors.push(row);
                    }
                    assert forall|i: int, j: int| 0 <= i < j < self.ancestors@.len() implies (
                    #[trigger] self.ancestors@[i]).thread_id@ != (
                    #[trigger] self.ancestors@[j]).thread_id@ by {
                        assert(self.ancestors@[i] == before[i]);
                        if j < before.len() {
                            assert(self.ancestors@[j] == before[j]);
                        }
                    }
                }
                self.parent = next_parent;
                self.ask_for_the_next()
            },
        }
    }

    /// Takes in a page of threads that was asked for.
    pub fn on_page(&mut self, page: Result<ThreadPage, String>) -> (action: BranchListAction)
        requires
            well_formed(*old(self)),
            old(self).stage is Children,
        ensures
            well_formed(*final(self)),
            match page {
                Err(error) => {
                    &&& *final(self) == (BranchList {
                        stage: BranchListStage::Finished,
                        ..*old(self)
                    })
                    &&& complains(action, "Failed to list branches: "@ + error@)
                },
                Ok(page) => {
                    &&& final(self).children@ == old(self).children@ + child_rows(
                        page.data@.filter(
                            threads::forked_from(old(self).current_thread_id@),
                        ),
                    )
                    &&& *final(self) == (BranchList {
                        children: final(self).children,
                        stage: final(self).stage,
                        ..*old(self)
                    })
                    &&& match page.next_cursor {
                        Some(cursor) => {
                            &&& final(self).stage is Children
                            &&& action matches BranchListAction::ListThreads(params)
                            &&& threads::asks_for_children(params, Some(cursor))
                        },
                        None => {
                            &&& final(self).stage is Finished
                            &&& action matches BranchListAction::ShowSelection {
                                rows,
                                current_row_index,
                            }
                            &&& rows@ == all_rows(*final(self))
                            &&& current_row_index == old(self).ancestors@.len()
                        },
                    }
                },
            },
    {
        let page = match page {
            Ok(page) => page,
            Err(error) => {
                self.stage = BranchListStage::Finished;
                return BranchListAction::ShowError(
                    failure("Failed to list branches: ", error.as_str()),
                );
            },
        };
        let current_text = self.current_thread_id.copy();
        add_child_rows(&mut self.children, &page.data, current_text.as_text());
        match page.next_cursor {
            Some(cursor) => BranchListAction::ListThreads(child_thread_list_params(Some(cursor))),
            None => {
                self.stage = BranchListStage::Finished;
                let mut rows = reversed_rows(&self.ancestors);
                let current_row_index: usize = rows.len();
                if let Some(current) = &self.current {
                    rows.push(
                        branch_row(
                            self.current_thread_id.copy(),
                            current,
                            BranchNavigatorRole::Current,
                        ),
                    );
                }
                let ghost head = rows@;
                let mut index: usize = 0;
                assert(rows@ =~= head + self.children@.take(0));
                while index < self.children.len()
                    invariant
                        index <= self.children@.len(),
                        rows@ == head + self.children@.take(index as int),
                    decreases self.children@.len() - index,
                {
                    rows.push(self.children[index].copy());
                    index = index + 1;
                    assert(rows@ =~= head + self.children@.take(index as int));
                }
                assert(self.children@.take(self.children@.len() as int) =~= self.children@);
                normalize_branch_navigator_rows(&mut rows, current_row_index);
                BranchListAction::ShowSelection { rows, current_row_index }
            },
        }
    }
}

/// In the rows of a branch list no ancestor occurs twice, the first ancestor is the main
/// thread, and the current thread stands right behind its ancestors.
pub proof fn law_branch_list_rows(list: BranchList)
    requires
        well_formed(list),
        list.current is Some,
    ensures
        all_different(all_rows(list).take(list.ancestors@.len() as int)),
        all_rows(list).len() == list.ancestors@.len() + 1 + list.children@.len(),
        all_rows(list)[list.ancestors@.len() as int].role is Current,
        all_rows(list)[list.ancestors@.len() as int].thread_id == list.current_thread_id,
        list.ancestors@.len() > 0 ==> all_rows(list)[0].role is Main,
{
    let rows = all_rows(list).take(list.ancestors@.len() as int);
    let ancestors = list.ancestors@;
    assert forall|i: int, j: int| 0 <= i < j < rows.len() implies (
    #[trigger] rows[i]).thread_id@ != (#[trigger] rows[j]).thread_id@ by {
        assert(rows[i].thread_id == ancestors[ancestors.len() - 1 - i].thread_id);
        assert(rows[j].thread_id == ancestors[ancestors.len() - 1 - j].thread_id);
    }
}

/// The rows of a branch list go from the root down to the parent, then to the current thread
/// and then to its children: the ancestor that was found last comes first, and the children
/// come in the order in which they were listed.
pub proof fn law_branch_list_is_in_order(list: BranchList, i: int)
    requires
        list.current is Some,
    ensures
        ({
            let rows = all_rows(list);
            let count = list.ancestors@.len() as int;
            &&& 0 <= i < count ==> {
                &&& rows[i].thread_id == list.ancestors@[count - 1 - i].thread_id
                &&& rows[i].anchor_summary == list.ancestors@[count - 1 - i].anchor_summary
                &&& rows[i].updated_at == list.ancestors@[count - 1 - i].updated_at
            }
            &&& rows[count].thread_id == list.current_thread_id
            &&& rows[count].role is Current
            &&& rows[count].anchor_summary == list.current->0.branch_anchor_summary
            &&& rows[count].updated_at == Some(list.current->0.updated_at)
            &&& 0 <= i < list.children@.len() ==> {
                &&& rows[count + 1 + i].thread_id == list.children@[i].thread_id
                &&& rows[count + 1 + i].anchor_summary == list.children@[i].anchor_summary
                &&& rows[count + 1 + i].updated_at == list.children@[i].updated_at
                &&& rows[count + 1 + i].role is Child
            }
        }),
{
}

/// The rows of children are those of the threads whose name is known, in order.
pub proof fn law_child_rows_are_in_order(children: Seq<Thread>, child: Thread)
    ensures
        child_rows(Seq::<Thread>::empty()).len() == 0,
        child.thread_id is None ==> child_rows(children.push(child)) == child_rows(children),
        child.thread_id is Some ==> {
            let rows = child_rows(children.push(child));
            &&& rows.len() == child_rows(children).len() + 1
            &&& rows.drop_last() == child_rows(children)
            &&& rows.last().thread_id == child.thread_id->0
            &&& rows.last().depth == child.branch_depth
            &&& rows.last().anchor_summary == child.branch_anchor_summary
            &&& rows.last().updated_at == Some(child.updated_at)
        },
{
    assert(children.push(child).drop_last() =~= children);
}

/// A parent that was not read yet is read next; where there is none, or it was read before,
/// the children are listed from the first page on.
pub proof fn law_ancestors_are_read_before_children(list: BranchList, action: BranchListAction)
    requires
        asks_for_the_next(list, action),
    ensures
        ({
            let left = list.parent is Some && forall|i: int|
                0 <= i < list.ancestors@.len() ==> (#[trigger] list.ancestors@[i]).thread_id@
                    != list.parent->0@;
            &&& left ==> list.stage is Ancestors && action == BranchListAction::ReadThread(
                list.parent->0,
            )
            &&& !left ==> {
                &&& list.stage is Children
                &&& action matches BranchListAction::ListThreads(params)
                &&& params.cursor is None
                &&& params.limit == Some(100u32)
                &&& params.sort_key == Some(threads::ThreadSortKey::UpdatedAt)
                &&& params.archived == Some(false)
            }
        }),
{
}

} // verus!
