//! The threads of a conversation and how they were forked from each other.
use crate::protocol::ThreadForkSnapshot;
use crate::strings;
use crate::strings::{copy_optional, same_text};
use vstd::prelude::*;
use vstd::string::*;

verus! {

/// The identity of a thread, as its text.
#[derive(Clone, Debug, PartialEq, Eq)]
pub struct ThreadId {
    pub text: String,
}

impl View for ThreadId {
    type V = Seq<char>;

    open spec fn view(&self) -> Seq<char> {
        self.text@
    }
}

impl ThreadId {
    /// The identity with a text.
    pub fn of_text(text: &str) -> (id: ThreadId)
        ensures
            id@ == text@,
    {
        ThreadId { text: text.to_owned() }
    }

    /// A copy of this identity.
    pub fn copy(&self) -> (id: ThreadId)
        ensures
            id == *self,
    {
        ThreadId { text: self.text.clone() }
    }

    /// The text of this identity.
    pub fn as_text(&self) -> (text: &str)
        ensures
            text@ == self@,
    {
        self.text.as_str()
    }

    /// Whether this is the same identity as another.
    pub fn is_same(&self, other: &ThreadId) -> (yes: bool)
        ensures
            yes == (self@ == other@),
    {
        same_text(self.text.as_str(), other.text.as_str())
    }
}

/// A copy of an optional identity.
pub fn copy_optional_id(id: &Option<ThreadId>) -> (copy: Option<ThreadId>)
    ensures
        copy == *id,
{
    match id {
        Some(id) => Some(id.copy()),
        None => None,
    }
}

/// What branching reads of a thread. `thread_id` and `forked_from_thread_id` are the
/// identities that `id` and `forked_from_id` name, where they are well-formed.
#[derive(Clone, Debug, PartialEq, Eq)]
pub struct Thread {
    pub id: String,
    pub thread_id: Option<ThreadId>,
    pub forked_from_id: Option<String>,
    pub forked_from_thread_id: Option<ThreadId>,
    pub branch_depth: Option<u32>,
    pub branch_anchor_summary: Option<String>,
    pub branch_anchor_head_summary: Option<String>,
    pub branch_anchor_tail_summary: Option<String>,
    pub branch_origin_snapshot: Option<ThreadForkSnapshot>,
    pub updated_at: i64,
}

impl Thread {
    /// A copy of this thread.
    pub fn copy(&self) -> (thread: Thread)
        ensures
            thread == *self,
    {
        Thread {
            id: self.id.clone(),
            thread_id: copy_optional_id(&self.thread_id),
            forked_from_id: copy_optional(&self.forked_from_id),
            forked_from_thread_id: copy_optional_id(&self.forked_from_thread_id),
            branch_depth: self.branch_depth,
            branch_anchor_summary: copy_optional(&self.branch_anchor_summary),
            branch_anchor_head_summary: copy_optional(&self.branch_anchor_head_summary),
            branch_anchor_tail_summary: copy_optional(&self.branch_anchor_tail_summary),
            branch_origin_snapshot: self.branch_origin_snapshot,
            updated_at: self.updated_at,
        }
    }
}

/// The thread that another was forked from, where it is known and well-formed.
pub open spec fn parent_of(thread: Thread) -> Option<ThreadId> {
    match thread.forked_from_id {
        Some(_) => thread.forked_from_thread_id,
        None => None,
    }
}

/// The thread that another was forked from.
pub fn parent_thread_id(thread: &Thread) -> (parent: Option<ThreadId>)
    ensures
        parent == parent_of(*thread),
{
    match thread.forked_from_id {
        Some(_) => copy_optional_id(&thread.forked_from_thread_id),
        None => None,
    }
}

// ---------------------------------------------------------------------------
// Listing children
// ---------------------------------------------------------------------------
/// The number of threads of a page.
pub const THREAD_PAGE_LIMIT: u32 = 100;

/// How listed threads are sorted.
#[derive(Clone, Copy, Debug, PartialEq, Eq, Structural)]
pub enum ThreadSortKey {
    CreatedAt,
    UpdatedAt,
}

/// Where threads come from.
#[derive(Clone, Copy, Debug, PartialEq, Eq, Structural)]
pub enum ThreadSourceKind {
    Cli,
    VsCode,
    Other { key: u64 },
}

/// A request for a page of threads. What it does not name is left open.
#[derive(Clone, Debug, PartialEq, Eq)]
pub struct ThreadListParams {
    pub cursor: Option<String>,
    pub limit: Option<u32>,
    pub sort_key: Option<ThreadSortKey>,
    pub source_kinds: Option<Vec<ThreadSourceKind>>,
    pub archived: Option<bool>,
    pub use_state_db_only: bool,
}

/// A page of listed threads.
#[derive(Clone, Debug, PartialEq, Eq)]
pub struct ThreadPage {
    pub data: Vec<Thread>,
    pub next_cursor: Option<String>,
}

/// Whether a request asks for the page of threads at a cursor: those of the terminal and of
/// the editor that are not archived, in the order of their last change.
pub open spec fn asks_for_children(params: ThreadListParams, cursor: Option<String>) -> bool {
    &&& params.cursor == cursor
    &&& params.limit == Some(THREAD_PAGE_LIMIT)
    &&& params.sort_key == Some(ThreadSortKey::UpdatedAt)
    &&& params.source_kinds matches Some(kinds) && kinds@ == seq![
        ThreadSourceKind::Cli,
        ThreadSourceKind::VsCode,
    ]
    &&& params.archived == Some(false)
    &&& !params.use_state_db_only
}

/// The request for the page of threads at a cursor.
pub fn child_thread_list_params(cursor: Option<String>) -> (params: ThreadListParams)
    ensures
        asks_for_children(params, cursor),
{
    let mut kinds: Vec<ThreadSourceKind> = Vec::new();
    kinds.push(ThreadSourceKind::Cli);
    kinds.push(ThreadSourceKind::VsCode);
    assert(kinds@ =~= seq![ThreadSourceKind::Cli, ThreadSourceKind::VsCode]);
    ThreadListParams {
        cursor,
        limit: Some(THREAD_PAGE_LIMIT),
        sort_key: Some(ThreadSortKey::UpdatedAt),
        source_kinds: Some(kinds),
        archived: Some(false),
        use_state_db_only: false,
    }
}

/// Whether a thread was forked from the one with a text as its identity.
pub open spec fn forked_from(parent: Seq<char>) -> spec_fn(Thread) -> bool {
    |thread: Thread| strings::opt_text(thread.forked_from_id) == Some(parent)
}

/// Whether a thread was forked from the one with a text as its identity.
pub fn is_forked_from(thread: &Thread, parent: &str) -> (yes: bool)
    ensures
        yes == forked_from(parent@)(*thread),
{
    match &thread.forked_from_id {
        Some(id) => same_text(id.as_str(), parent),
        None => false,
    }
}

/// Adds the threads of a page that were forked from a thread to those of earlier pages, in
/// their order.
pub fn collect_child_threads(children: &mut Vec<Thread>, page: &[Thread], parent: &str)
    ensures
        final(children)@ == old(children)@ + page@.filter(forked_from(parent@)),
{
    let mut index: usize = 0;
    proof {
        reveal(Seq::filter);
        assert(page@.take(0) =~= Seq::<Thread>::empty());
        assert(children@ =~= old(children)@ + page@.take(0).filter(forked_from(parent@)));
    }
    while index < page.len()
        invariant
            index <= page@.len(),
            children@ == old(children)@ + page@.take(index as int).filter(forked_from(parent@)),
        decreases page@.len() - index,
    {
        let ghost before = children@;
        proof {
            reveal(Seq::filter);
            assert(page@.take(index as int + 1).drop_last() =~= page@.take(index as int));
            assert(page@.take(index as int + 1).last() == page@[index as int]);
        }
        if is_forked_from(&page[index], parent) {
            children.push(page[index].copy());
        }
        assert(children@ =~= old(children)@ + page@.take(index as int + 1).filter(
            forked_from(parent@),
        ));
        index = index + 1;
    }
    assert(page@.take(page@.len() as int) =~= page@);
}

/// Children are asked for a hundred at a time, the last updated first, of the two kinds of
/// sessions that have branches, without the archived ones and not from the state database
/// alone.
pub proof fn law_children_are_asked_for(params: ThreadListParams, cursor: Option<String>)
    requires
        asks_for_children(params, cursor),
    ensures
        params.cursor == cursor,
        params.limit == Some(100u32),
        params.sort_key == Some(ThreadSortKey::UpdatedAt),
        params.source_kinds is Some,
        params.source_kinds->0@ == seq![ThreadSourceKind::Cli, ThreadSourceKind::VsCode],
        params.archived == Some(false),
        params.use_state_db_only == false,
{
}

/// A thread is a child of the thread that it names as the one it was forked from, and that
/// thread is its parent where its name can be read.
pub proof fn law_children_name_their_parent(thread: Thread, parent: Seq<char>)
    ensures
        forked_from(parent)(thread) <==> thread.forked_from_id is Some && thread.forked_from_id->0@
            == parent,
        thread.forked_from_id is None ==> parent_of(thread) is None,
        thread.forked_from_id is Some ==> parent_of(thread) == thread.forked_from_thread_id,
{
}

} // verus!
