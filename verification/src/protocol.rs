//! The conversation data that branching reads: threads, their turns and the points at
//! which a thread can be forked.
//!
//! What branching only passes on stays with the application, which keeps it under a
//! key.
use crate::strings;
use vstd::prelude::*;

verus! {

/// The point of a thread's history from which a fork starts.
#[derive(Clone, Copy, Debug, PartialEq, Eq, Structural)]
pub enum ThreadForkSnapshot {
    /// The thread as it was when its running turn was interrupted.
    Interrupted,
    /// A read point inside an assistant message, counted from the first one.
    AssistantReadAnchor {
        assistant_message_index: u32,
        source_line_index: u32,
        source_byte_offset: u32,
    },
    /// A read point inside the most recent assistant message.
    LatestAssistantReadAnchor { source_line_index: u32, source_byte_offset: u32 },
}

/// The part that a message plays in its turn.
#[derive(Clone, Copy, Debug, PartialEq, Eq, Structural)]
pub enum MessagePhase {
    /// The answer that ends the turn.
    FinalAnswer,
    /// Any other phase, by its key.
    Other { key: u64 },
}

/// A place that a message cites from memory.
#[derive(Clone, Debug, PartialEq, Eq)]
pub struct MemoryCitationEntry {
    pub path: String,
    pub line_start: u32,
    pub line_end: u32,
    pub note: String,
}

/// The places that a message cites from memory, and the threads that they come from.
#[derive(Clone, Debug, PartialEq, Eq)]
pub struct MemoryCitation {
    pub entries: Vec<MemoryCitationEntry>,
    pub thread_ids: Vec<String>,
}

/// What a web search does.
#[derive(Clone, Copy, Debug, PartialEq, Eq, Structural)]
pub enum WebSearchAction {
    /// An action with a target, by its key.
    Targeted { key: u64 },
    /// Any other action.
    Other,
}

/// An item of a turn.
#[derive(Clone, Debug, PartialEq, Eq)]
pub enum ThreadItem {
    UserMessage { item: u64 },
    AgentMessage {
        id: String,
        text: String,
        source_text: Option<String>,
        source_segments: Option<Vec<String>>,
        phase: Option<MessagePhase>,
        memory_citation: Option<MemoryCitation>,
    },
    Plan { text: String },
    Reasoning { summary: Vec<String>, content: Vec<String> },
    CommandExecution { in_progress: bool, item: u64 },
    FileChange { in_progress: bool, item: u64 },
    McpToolCall { in_progress: bool, item: u64 },
    WebSearch { id: String, query: String, action: Option<WebSearchAction> },
    ImageView { path: String },
    ImageGeneration { id: String, revised_prompt: Option<String>, saved_path: Option<String> },
    EnteredReviewMode { review: String },
    ExitedReviewMode,
    ContextCompaction,
    HookPrompt,
    CollabAgentToolCall { item: u64 },
    SubAgentActivity { item: u64 },
    DynamicToolCall,
}

/// How far a turn has come.
#[derive(Clone, Copy, Debug, PartialEq, Eq, Structural)]
pub enum TurnStatus {
    Completed,
    Interrupted,
    Failed,
    InProgress,
}

/// A turn of a thread.
#[derive(Clone, Debug, PartialEq, Eq)]
pub struct Turn {
    pub id: String,
    pub items: Vec<ThreadItem>,
    pub status: TurnStatus,
    pub error: Option<u64>,
    pub started_at: Option<i64>,
    pub completed_at: Option<i64>,
    pub duration_ms: Option<i64>,
}

/// What branching reads of an assistant message.
pub struct AgentMessageView {
    pub text: Seq<char>,
    pub source_text: Option<Seq<char>>,
    pub source_segments: Option<Seq<Seq<char>>>,
}

/// The views of an optional list of strings.
pub open spec fn opt_texts(strings: Option<Vec<String>>) -> Option<Seq<Seq<char>>> {
    match strings {
        Some(strings) => Some(strings::texts(strings@)),
        None => None,
    }
}

/// The assistant message that an item is, if it is one.
pub open spec fn agent_message(item: ThreadItem) -> Option<AgentMessageView> {
    match item {
        ThreadItem::AgentMessage { text, source_text, source_segments, .. } => Some(
            AgentMessageView {
                text: text@,
                source_text: strings::opt_text(source_text),
                source_segments: opt_texts(source_segments),
            },
        ),
        _ => None,
    }
}

/// The assistant messages of some items, in their order.
pub open spec fn item_messages(items: Seq<ThreadItem>) -> Seq<AgentMessageView>
    decreases items.len(),
{
    if items.len() == 0 {
        Seq::<AgentMessageView>::empty()
    } else {
        match agent_message(items.last()) {
            Some(message) => item_messages(items.drop_last()).push(message),
            None => item_messages(items.drop_last()),
        }
    }
}

/// The assistant messages of some turns, in their order.
pub open spec fn turn_messages(turns: Seq<Turn>) -> Seq<AgentMessageView>
    decreases turns.len(),
{
    if turns.len() == 0 {
        Seq::<AgentMessageView>::empty()
    } else {
        turn_messages(turns.drop_last()) + item_messages(turns.last().items@)
    }
}

/// The assistant messages of turns are those of their items, in order, and no other item is
/// one.
pub proof fn law_messages_are_in_order(
    turns: Seq<Turn>,
    more: Seq<Turn>,
    items: Seq<ThreadItem>,
    item: ThreadItem,
)
    ensures
        turn_messages(turns + more) == turn_messages(turns) + turn_messages(more),
        item_messages(Seq::<ThreadItem>::empty()).len() == 0,
        turns.len() == 1 ==> turn_messages(turns) == item_messages(turns[0].items@),
        match item {
            ThreadItem::AgentMessage { text, source_text, source_segments, .. } => {
                let messages = item_messages(items.push(item));
                &&& messages.len() == item_messages(items).len() + 1
                &&& messages.drop_last() == item_messages(items)
                &&& messages.last().text == text@
                &&& messages.last().source_text == strings::opt_text(source_text)
                &&& messages.last().source_segments == opt_texts(source_segments)
            },
            _ => item_messages(items.push(item)) == item_messages(items),
        },
    decreases more.len(),
{
    assert(items.push(item).drop_last() =~= items);
    if more.len() == 0 {
        assert(turns + more =~= turns);
    } else {
        law_messages_are_in_order(turns, more.drop_last(), items, item);
        assert((turns + more).drop_last() =~= turns + more.drop_last());
        assert((turns + more).last() == more.last());
    }
    if turns.len() == 1 {
        assert(turns.drop_last() =~= Seq::<Turn>::empty());
        assert(turn_messages(turns.drop_last()) =~= Seq::<AgentMessageView>::empty());
        assert(turn_messages(turns) =~= item_messages(turns[0].items@));
    }
}

} // verus!
