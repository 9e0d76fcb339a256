//! Replaying the turns of a thread into the transcript: what the chat widget is told to do
//! for each item.
use crate::history_cell;
use crate::history_cell::AgentMessageCell;
use crate::protocol;
use crate::protocol::{
    MemoryCitation, MemoryCitationEntry, MessagePhase, ThreadItem, Turn, TurnStatus,
    WebSearchAction,
};
use crate::responses;
use crate::strings;
use crate::strings::is_blank;
use crate::styled;
use crate::styled::Line;
use crate::threads::ThreadId;
use vstd::prelude::*;
use vstd::string::*;

verus! {

// ---------------------------------------------------------------------------
// Actions
// ---------------------------------------------------------------------------
/// Why turns are replayed.
#[derive(Clone, Copy, Debug, PartialEq, Eq, Structural)]
pub enum ReplayKind {
    /// A session is resumed.
    ResumeInitialMessages,
    /// The state of a thread is shown again.
    ThreadSnapshot,
}

/// Where an item comes from.
#[derive(Clone, Copy, Debug, PartialEq, Eq, Structural)]
pub enum ThreadItemRenderSource {
    Live,
    Replay(ReplayKind),
}

/// The places that a message cites from memory, and the rollouts that they come from.
#[derive(Clone, Debug, PartialEq, Eq)]
pub struct ItemMemoryCitation {
    pub entries: Vec<MemoryCitationEntry>,
    pub rollout_ids: Vec<String>,
}

/// A message of the assistant that is complete.
#[derive(Clone, Debug, PartialEq, Eq)]
pub struct AgentMessageItem {
    pub id: String,
    pub text: String,
    pub phase: Option<MessagePhase>,
    pub memory_citation: Option<ItemMemoryCitation>,
}

/// How a turn ended.
#[derive(Clone, Debug, PartialEq, Eq)]
pub struct TurnEnd {
    pub id: String,
    pub status: TurnStatus,
    pub error: Option<u64>,
    pub started_at: Option<i64>,
    pub completed_at: Option<i64>,
    pub duration_ms: Option<i64>,
}

/// What the chat widget is told to do.
#[derive(Clone, Debug, PartialEq, Eq)]
pub enum WidgetAction {
    CommitUserMessage { item: u64, from_replay: bool },
    AddToHistory(AgentMessageCell),
    RecordAgentMarkdown(String),
    ClearLastAgentMarkdown,
    CompleteAgentMessage { message: AgentMessageItem, from_replay: bool },
    CompletePlan(String),
    ReasoningDelta(String),
    ReasoningFinal,
    StartCommandExecution { item: u64 },
    CompleteCommandExecution { item: u64 },
    CompleteFileChange { item: u64 },
    StartMcpToolCall { item: u64 },
    CompleteMcpToolCall { item: u64 },
    BeginWebSearch { id: String },
    EndWebSearch { id: String, query: String, action: WebSearchAction },
    ViewImage { path: String },
    EndImageGeneration { id: String, revised_prompt: Option<String>, saved_path: Option<String> },
    EnterReviewMode { review: String, from_replay: bool },
    ExitReviewMode,
    ShowInfo(String),
    CollabAgentToolCall { item: u64 },
    SubAgentActivity { item: u64 },
    ClearLastNonRetryError,
    StartTask,
    CompleteTurn { thread_id: String, turn: TurnEnd, replay_kind: ReplayKind },
    RequestRedraw,
}

/// What a replayed cell holds.
pub struct ReplayedCellView {
    pub lines: Seq<styled::LineView>,
    pub raw_markdown: Option<Seq<char>>,
    pub source_segments: Option<Seq<Seq<char>>>,
}

/// What an action is. A cell is told by what it holds, and a new text by its characters.
pub enum ActionView {
    AddToHistory(ReplayedCellView),
    RecordAgentMarkdown(Seq<char>),
    ShowInfo(Seq<char>),
    CompleteTurn { thread_id: Seq<char>, turn: TurnEnd, replay_kind: ReplayKind },
    /// Any other action.
    Plain(WidgetAction),
}

/// What a cell holds: a first cell without links and markers.
pub open spec fn is_replayed_cell(cell: AgentMessageCell, view: ReplayedCellView) -> bool {
    &&& cell.is_first_line
    &&& cell.branch_markers@.len() == 0
    &&& strings::opt_text(cell.raw_markdown) == view.raw_markdown
    &&& protocol::opt_texts(cell.source_segments) == view.source_segments
    &&& cell.lines@.len() == view.lines.len()
    &&& forall|i: int|
        0 <= i < view.lines.len() ==> (#[trigger] cell.lines@[i])@ == history_cell::unlinked(
            view.lines[i],
        )
}

/// Whether an action is of some kind.
pub open spec fn is_action(action: WidgetAction, view: ActionView) -> bool {
    match view {
        ActionView::AddToHistory(cell) => action matches WidgetAction::AddToHistory(own)
            && is_replayed_cell(own, cell),
        ActionView::RecordAgentMarkdown(text) => {
            action matches WidgetAction::RecordAgentMarkdown(own) && own@ == text
        },
        ActionView::ShowInfo(text) => action matches WidgetAction::ShowInfo(own) && own@ == text,
        ActionView::CompleteTurn { thread_id, turn, replay_kind } => {
            action matches WidgetAction::CompleteTurn {
                thread_id: own_id,
                turn: own_turn,
                replay_kind: own_kind,
            } && own_id@ == thread_id && own_turn == turn && own_kind == replay_kind
        },
        ActionView::Plain(plain) => action == plain,
    }
}

/// Whether actions are of some kinds, in their order.
pub open spec fn are_actions(actions: Seq<WidgetAction>, views: Seq<ActionView>) -> bool {
    &&& actions.len() == views.len()
    &&& forall|i: int| 0 <= i < actions.len() ==> is_action(#[trigger] actions[i], views[i])
}

proof fn lemma_actions_push(
    actions: Seq<WidgetAction>,
    views: Seq<ActionView>,
    action: WidgetAction,
    view: ActionView,
)
    requires
        are_actions(actions, views),
        is_action(action, view),
    ensures
        are_actions(actions.push(action), views.push(view)),
{
}

proof fn lemma_actions_add(
    a: Seq<WidgetAction>,
    b: Seq<WidgetAction>,
    a_views: Seq<ActionView>,
    b_views: Seq<ActionView>,
)
    requires
        are_actions(a, a_views),
        are_actions(b, b_views),
    ensures
        are_actions(a + b, a_views + b_views),
{
    assert forall|i: int| 0 <= i < (a + b).len() implies is_action(
        #[trigger] (a + b)[i],
        (a_views + b_views)[i],
    ) by {
        if i < a.len() {
            assert(is_action(a[i], a_views[i]));
        } else {
            assert(is_action(b[i - a.len()], b_views[i - a.len()]));
        }
    }
}

// ---------------------------------------------------------------------------
// Replies
// ---------------------------------------------------------------------------
/// Whether a parser of replies takes every text and computes a function of it: the
/// markdown that is shown.
pub open spec fn parses_as<P: Fn(&str) -> String>(
    parse: P,
    model: spec_fn(Seq<char>) -> Seq<char>,
) -> bool {
    &&& forall|text: &str| call_requires(parse, (text,))
    &&& forall|text: &str, visible: String| #[trigger]
        call_ensures(parse, (text,), visible) ==> visible@ == model(text@)
}

/// Whether a parser of replies takes every text and computes some function of it.
pub open spec fn is_parser<P: Fn(&str) -> String>(parse: P) -> bool {
    exists|model: spec_fn(Seq<char>) -> Seq<char>| parses_as(parse, model)
}

/// Whether the markdown of a reply is kept as the last one: that of a final answer, and of
/// a reply of no known phase.
pub open spec fn is_recorded(phase: Option<MessagePhase>) -> bool {
    phase is None || phase == Some(MessagePhase::FinalAnswer)
}

/// What is done for a reply that is replayed: its source, or its text where the source is
/// blank, is shown; the source, or else what is shown, is kept as the last markdown.
pub open spec fn message_actions(
    text: Seq<char>,
    source_text: Option<Seq<char>>,
    source_segments: Option<Seq<Seq<char>>>,
    phase: Option<MessagePhase>,
    parse: spec_fn(Seq<char>) -> Seq<char>,
    render: spec_fn(Seq<char>) -> Seq<styled::LineView>,
) -> Seq<ActionView> {
    let raw_markdown = responses::visible_text(source_text);
    let visible = match raw_markdown {
        Some(raw) => parse(raw),
        None => parse(text),
    };
    let added = ActionView::AddToHistory(
        ReplayedCellView { lines: render(visible), raw_markdown, source_segments },
    );
    let redraw = ActionView::Plain(WidgetAction::RequestRedraw);
    if is_recorded(phase) {
        seq![
            added,
            match raw_markdown {
                Some(raw) => ActionView::RecordAgentMarkdown(raw),
                None => if visible.len() == 0 {
                    ActionView::Plain(WidgetAction::ClearLastAgentMarkdown)
                } else {
                    ActionView::RecordAgentMarkdown(visible)
                },
            },
            redraw,
        ]
    } else {
        seq![added, redraw]
    }
}

// ---------------------------------------------------------------------------
// Items
// ---------------------------------------------------------------------------
/// Whether an item is replayed.
pub open spec fn is_replay(source: ThreadItemRenderSource) -> bool {
    source is Replay
}

/// The parts of a reasoning, one after the other.
pub open spec fn deltas(parts: Seq<String>) -> Seq<ActionView> {
    parts.map_values(|part: String| ActionView::Plain(WidgetAction::ReasoningDelta(part)))
}

/// A citation for the chat widget.
pub open spec fn item_citation(citation: Option<MemoryCitation>) -> Option<ItemMemoryCitation> {
    match citation {
        Some(citation) => Some(
            ItemMemoryCitation { entries: citation.entries, rollout_ids: citation.thread_ids },
        ),
        None => None,
    }
}

/// What a web search does, where that is known; any other action where it is not.
pub open spec fn known_action(action: Option<WebSearchAction>) -> WebSearchAction {
    match action {
        Some(action) => action,
        None => WebSearchAction::Other,
    }
}

/// One plain action.
pub open spec fn one(action: WidgetAction) -> Seq<ActionView> {
    seq![ActionView::Plain(action)]
}

/// What is done for an item itself.
pub open spec fn own_actions(
    item: ThreadItem,
    from_replay: bool,
    show_raw: bool,
    parse: spec_fn(Seq<char>) -> Seq<char>,
    render: spec_fn(Seq<char>) -> Seq<styled::LineView>,
) -> Seq<ActionView> {
    let nothing = Seq::<ActionView>::empty();
    match item {
        ThreadItem::UserMessage { item } => one(
            WidgetAction::CommitUserMessage { item, from_replay },
        ),
        ThreadItem::AgentMessage {
            id,
            text,
            source_text,
            source_segments,
            phase,
            memory_citation,
        } => if from_replay {
            message_actions(
                text@,
                strings::opt_text(source_text),
                protocol::opt_texts(source_segments),
                phase,
                parse,
                render,
            )
        } else {
            one(
                WidgetAction::CompleteAgentMessage {
                    message: AgentMessageItem {
                        id,
                        text,
                        phase,
                        memory_citation: item_citation(memory_citation),
                    },
                    from_replay: false,
                },
            )
        },
        ThreadItem::Plan { text } => one(WidgetAction::CompletePlan(text)),
        ThreadItem::Reasoning { summary, content } => (if from_replay {
            deltas(summary@) + if show_raw {
                deltas(content@)
            } else {
                nothing
            }
        } else {
            nothing
        }).push(ActionView::Plain(WidgetAction::ReasoningFinal)),
        ThreadItem::CommandExecution { in_progress, item } => one(
            if in_progress {
                WidgetAction::StartCommandExecution { item }
            } else {
                WidgetAction::CompleteCommandExecution { item }
            },
        ),
        ThreadItem::FileChange { in_progress, item } => if in_progress {
            nothing
        } else {
            one(WidgetAction::CompleteFileChange { item })
        },
        ThreadItem::McpToolCall { in_progress, item } => one(
            if in_progress {
                WidgetAction::StartMcpToolCall { item }
            } else {
                WidgetAction::CompleteMcpToolCall { item }
            },
        ),
        ThreadItem::WebSearch { id, query, action } => seq![
            ActionView::Plain(WidgetAction::BeginWebSearch { id }),
            ActionView::Plain(
                WidgetAction::EndWebSearch { id, query, action: known_action(action) },
            ),
        ],
        ThreadItem::ImageView { path } => one(WidgetAction::ViewImage { path }),
        ThreadItem::ImageGeneration { id, revised_prompt, saved_path } => one(
            WidgetAction::EndImageGeneration { id, revised_prompt, saved_path },
        ),
        ThreadItem::EnteredReviewMode { review } => if from_replay {
            one(WidgetAction::EnterReviewMode { review, from_replay: true })
        } else {
            nothing
        },
        ThreadItem::ExitedReviewMode => one(WidgetAction::ExitReviewMode),
        ThreadItem::ContextCompaction => seq![ActionView::ShowInfo("Context compacted"@)],
        ThreadItem::HookPrompt => nothing,
        ThreadItem::CollabAgentToolCall { item } => one(
            WidgetAction::CollabAgentToolCall { item },
        ),
        ThreadItem::SubAgentActivity { item } => one(WidgetAction::SubAgentActivity { item }),
        ThreadItem::DynamicToolCall => nothing,
    }
}

/// What is done for an item. An item of no turn in the state of a thread that is shown
/// again is drawn at once.
pub open spec fn item_actions(
    item: ThreadItem,
    turn_id: Seq<char>,
    source: ThreadItemRenderSource,
    show_raw: bool,
    parse: spec_fn(Seq<char>) -> Seq<char>,
    render: spec_fn(Seq<char>) -> Seq<styled::LineView>,
) -> Seq<ActionView> {
    let own = own_actions(item, is_replay(source), show_raw, parse, render);
    if source == ThreadItemRenderSource::Replay(ReplayKind::ThreadSnapshot) && turn_id.len() == 0 {
        own.push(ActionView::Plain(WidgetAction::RequestRedraw))
    } else {
        own
    }
}

/// What is done for the items of a turn.
pub open spec fn items_actions(
    items: Seq<ThreadItem>,
    turn_id: Seq<char>,
    source: ThreadItemRenderSource,
    show_raw: bool,
    parse: spec_fn(Seq<char>) -> Seq<char>,
    render: spec_fn(Seq<char>) -> Seq<styled::LineView>,
) -> Seq<ActionView>
    decreases items.len(),
{
    if items.len() == 0 {
        Seq::<ActionView>::empty()
    } else {
        items_actions(items.drop_last(), turn_id, source, show_raw, parse, render) + item_actions(
            items.last(),
            turn_id,
            source,
            show_raw,
            parse,
            render,
        )
    }
}

/// The text of an identity; nothing where there is none.
pub open spec fn id_text(thread_id: Option<ThreadId>) -> Seq<char> {
    match thread_id {
        Some(thread_id) => thread_id@,
        None => Seq::<char>::empty(),
    }
}

/// How a turn ended.
pub open spec fn end_of(turn: Turn) -> TurnEnd {
    TurnEnd {
        id: turn.id,
        status: turn.status,
        error: turn.error,
        started_at: turn.started_at,
        completed_at: turn.completed_at,
        duration_ms: turn.duration_ms,
    }
}

/// What is done before the items of a turn: a turn in progress starts a task.
pub open spec fn turn_start(turn: Turn) -> Seq<ActionView> {
    if turn.status is InProgress {
        seq![
            ActionView::Plain(WidgetAction::ClearLastNonRetryError),
            ActionView::Plain(WidgetAction::StartTask),
        ]
    } else {
        Seq::<ActionView>::empty()
    }
}

/// What is done behind the items of a turn: a turn that is over is completed.
pub open spec fn turn_end(turn: Turn, thread_id: Option<ThreadId>, kind: ReplayKind) -> Seq<
    ActionView,
> {
    if turn.status is InProgress {
        Seq::<ActionView>::empty()
    } else {
        seq![
            ActionView::CompleteTurn {
                thread_id: id_text(thread_id),
                turn: end_of(turn),
                replay_kind: kind,
            },
        ]
    }
}

/// What is done for a turn that is replayed.
pub open spec fn turn_actions(
    turn: Turn,
    thread_id: Option<ThreadId>,
    kind: ReplayKind,
    show_raw: bool,
    parse: spec_fn(Seq<char>) -> Seq<char>,
    render: spec_fn(Seq<char>) -> Seq<styled::LineView>,
) -> Seq<ActionView> {
    turn_start(turn) + items_actions(
        turn.items@,
        turn.id@,
        ThreadItemRenderSource::Replay(kind),
        show_raw,
        parse,
        render,
    ) + turn_end(turn, thread_id, kind)
}

/// What is done for turns that are replayed.
pub open spec fn turns_actions(
    turns: Seq<Turn>,
    thread_id: Option<ThreadId>,
    kind: ReplayKind,
    show_raw: bool,
    parse: spec_fn(Seq<char>) -> Seq<char>,
    render: spec_fn(Seq<char>) -> Seq<styled::LineView>,
) -> Seq<ActionView>
    decreases turns.len(),
{
    if turns.len() == 0 {
        Seq::<ActionView>::empty()
    } else {
        turns_actions(turns.drop_last(), thread_id, kind, show_raw, parse, render) + turn_actions(
            turns.last(),
            thread_id,
            kind,
            show_raw,
            parse,
            render,
        )
    }
}

// ---------------------------------------------------------------------------
// The chat widget
// ---------------------------------------------------------------------------
/// What replaying reads of the chat widget.
#[derive(Clone, Debug, PartialEq, Eq)]
pub struct ChatWidget {
    pub thread_id: Option<ThreadId>,
    pub show_raw_agent_reasoning: bool,
}

/// Whether a text is not blank.
fn is_visible(text: &Option<String>) -> (yes: bool)
    ensures
        yes == (responses::visible_text(strings::opt_text(*text)) is Some),
{
    match text {
        Some(text) => !is_blank(text.as_str()),
        None => false,
    }
}

/// Adds the parts of a reasoning.
fn push_deltas(actions: &mut Vec<WidgetAction>, parts: Vec<String>, Ghost(views): Ghost<Seq<ActionView>>)
    requires
        are_actions(old(actions)@, views),
    ensures
        are_actions(final(actions)@, views + deltas(parts@)),
{
    let ghost all = parts@;
    assert(views + deltas(all.take(0)) =~= views);
    for part in it: parts.into_iter()
        invariant
            it.seq() == all,
            are_actions(actions@, views + deltas(all.take(it.index() as int))),
    {
        let ghost index = it.index() as int;
        proof {
            let added = ActionView::Plain(WidgetAction::ReasoningDelta(part));
            lemma_actions_push(
                actions@,
                views + deltas(all.take(index)),
                WidgetAction::ReasoningDelta(part),
                added,
            );
            assert(views + deltas(all.take(index + 1)) =~= (views + deltas(all.take(index))).push(
                added,
            ));
        }
        actions.push(WidgetAction::ReasoningDelta(part));
    }
    assert(all.take(all.len() as int) =~= all);
}

impl ChatWidget {
    /// Replays a reply.
    pub fn replay_completed_agent_message<
        P: Fn(&str) -> String,
        F: Fn(&str) -> Vec<Line>,
    >(
        &self,
        text: String,
        source_text: Option<String>,
        source_segments: Option<Vec<String>>,
        phase: Option<MessagePhase>,
        parse_assistant_markdown: &P,
        append_markdown: &F,
    ) -> (actions: Vec<WidgetAction>)
        requires
            is_parser(*parse_assistant_markdown),
            styled::is_renderer(*append_markdown),
        ensures
            forall|
                parse: spec_fn(Seq<char>) -> Seq<char>,
                render: spec_fn(Seq<char>) -> Seq<styled::LineView>,
            | #[trigger]
                parses_as(*parse_assistant_markdown, parse) && #[trigger] styled::renders_as(
                    *append_markdown,
                    render,
                ) ==> are_actions(
                    actions@,
                    message_actions(
                        text@,
                        strings::opt_text(source_text),
                        protocol::opt_texts(source_segments),
                        phase,
                        parse,
                        render,
                    ),
                ),
    {
        let raw_markdown: Option<String> = if is_visible(&source_text) {
            source_text
        } else {
            None
        };
        let ghost raw = strings::opt_text(raw_markdown);
        let visible_markdown = match &raw_markdown {
            Some(raw_markdown) => parse_assistant_markdown(raw_markdown.as_str()),
            None => parse_assistant_markdown(text.as_str()),
        };
        let lines = append_markdown(visible_markdown.as_str());
        let ghost line_views = styled::line_views(lines@);
        let record: Option<String> = match &raw_markdown {
            Some(raw_markdown) => Some(raw_markdown.clone()),
            None => if visible_markdown.as_str().is_empty() {
                None
            } else {
                Some(visible_markdown)
            },
        };
        let mut cell = AgentMessageCell::new_with_raw_markdown(lines, true, raw_markdown);
        cell.set_source_segments(source_segments);
        let ghost cell_view = ReplayedCellView {
            lines: line_views,
            raw_markdown: raw,
            source_segments: protocol::opt_texts(source_segments),
        };
        assert(is_replayed_cell(cell, cell_view)) by {
            assert forall|i: int| 0 <= i < line_views.len() implies (#[trigger] cell.lines@[i])@
                == history_cell::unlinked(line_views[i]) by {
                assert(line_views[i] == lines@[i]@);
            }
        }
        let mut actions: Vec<WidgetAction> = Vec::new();
        actions.push(WidgetAction::AddToHistory(cell));
        let recorded = match phase {
            None => true,
            Some(MessagePhase::FinalAnswer) => true,
            Some(_) => false,
        };
        if recorded {
            match record {
                Some(record) => actions.push(WidgetAction::RecordAgentMarkdown(record)),
                None => actions.push(WidgetAction::ClearLastAgentMarkdown),
            }
        }
        actions.push(WidgetAction::RequestRedraw);
        actions
    }

    /// What is done for an item.
    pub fn handle_thread_item<P: Fn(&str) -> String, F: Fn(&str) -> Vec<Line>>(
        &self,
        item: ThreadItem,
        turn_id: &str,
        render_source: ThreadItemRenderSource,
        parse_assistant_markdown: &P,
        append_markdown: &F,
    ) -> (actions: Vec<WidgetAction>)
        requires
            is_parser(*parse_assistant_markdown),
            styled::is_renderer(*append_markdown),
        ensures
            forall|
                parse: spec_fn(Seq<char>) -> Seq<char>,
                render: spec_fn(Seq<char>) -> Seq<styled::LineView>,
            | #[trigger]
                parses_as(*parse_assistant_markdown, parse) && #[trigger] styled::renders_as(
                    *append_markdown,
                    render,
                ) ==> are_actions(
                    actions@,
                    item_actions(
                        item,
                        turn_id@,
                        render_source,
                        self.show_raw_agent_reasoning,
                        parse,
                        render,
                    ),
                ),
    {
        let from_replay = match render_source {
            ThreadItemRenderSource::Replay(_) => true,
            ThreadItemRenderSource::Live => false,
        };
        let mut actions: Vec<WidgetAction> = Vec::new();
        match item {
            ThreadItem::UserMessage { item } => {
                actions.push(WidgetAction::CommitUserMessage { item, from_replay });
            },
            ThreadItem::AgentMessage {
                id,
                text,
                source_text,
                source_segments,
                phase,
                memory_citation,
            } => {
                if from_replay {
                    actions = self.replay_completed_agent_message(
                        text,
                        source_text,
                        source_segments,
                        phase,
                        parse_assistant_markdown,
                        append_markdown,
                    );
                } else {
                    let memory_citation = match memory_citation {
                        Some(citation) => Some(
                            ItemMemoryCitation {
                                entries: citation.entries,
                                rollout_ids: citation.thread_ids,
                            },
                        ),
                        None => None,
                    };
                    actions.push(
                        WidgetAction::CompleteAgentMessage {
                            message: AgentMessageItem { id, text, phase, memory_citation },
                            from_replay: false,
                        },
                    );
                }
            },
            ThreadItem::Plan { text } => {
                actions.push(WidgetAction::CompletePlan(text));
            },
            ThreadItem::Reasoning { summary, content } => {
                let ghost nothing = Seq::<ActionView>::empty();
                let ghost mut views = nothing;
                if from_replay {
                    let ghost summary_views = deltas(summary@);
                    push_deltas(&mut actions, summary, Ghost(views));
                    proof {
                        views = views + summary_views;
                        assert(views =~= summary_views);
                    }
                    if self.show_raw_agent_reasoning {
                        let ghost content_views = deltas(content@);
                        push_deltas(&mut actions, content, Ghost(views));
                        proof {
                            views = views + content_views;
                        }
                    } else {
                        assert(views + nothing =~= views);
                    }
                }
                actions.push(WidgetAction::ReasoningFinal);
            },
            ThreadItem::CommandExecution { in_progress, item } => {
                if in_progress {
                    actions.push(WidgetAction::StartCommandExecution { item });
                } else {
                    actions.push(WidgetAction::CompleteCommandExecution { item });
                }
            },
            ThreadItem::FileChange { in_progress, item } => {
                if !in_progress {
                    actions.push(WidgetAction::CompleteFileChange { item });
                }
            },
            ThreadItem::McpToolCall { in_progress, item } => {
                if in_progress {
                    actions.push(WidgetAction::StartMcpToolCall { item });
                } else {
                    actions.push(WidgetAction::CompleteMcpToolCall { item });
                }
            },
            ThreadItem::WebSearch { id, query, action } => {
                let action = match action {
                    Some(action) => action,
                    None => WebSearchAction::Other,
                };
                actions.push(WidgetAction::BeginWebSearch { id: id.clone() });
                actions.push(WidgetAction::EndWebSearch { id, query, action });
            },
            ThreadItem::ImageView { path } => {
                actions.push(WidgetAction::ViewImage { path });
            },
            ThreadItem::ImageGeneration { id, revised_prompt, saved_path } => {
                actions.push(WidgetAction::EndImageGeneration { id, revised_prompt, saved_path });
            },
            ThreadItem::EnteredReviewMode { review } => {
                if from_replay {
                    actions.push(WidgetAction::EnterReviewMode { review, from_replay: true });
                }
            },
            ThreadItem::ExitedReviewMode => {
                actions.push(WidgetAction::ExitReviewMode);
            },
            ThreadItem::ContextCompaction => {
                actions.push(WidgetAction::ShowInfo("Context compacted".to_owned()));
            },
            ThreadItem::HookPrompt => {},
            ThreadItem::CollabAgentToolCall { item } => {
                actions.push(WidgetAction::CollabAgentToolCall { item });
            },
            ThreadItem::SubAgentActivity { item } => {
                actions.push(WidgetAction::SubAgentActivity { item });
            },
            ThreadItem::DynamicToolCall => {},
        }
        assert forall|
            parse: spec_fn(Seq<char>) -> Seq<char>,
            render: spec_fn(Seq<char>) -> Seq<styled::LineView>,
        | #[trigger]
            parses_as(*parse_assistant_markdown, parse) && #[trigger] styled::renders_as(
                *append_markdown,
                render,
            ) implies are_actions(
            actions@,
            own_actions(
                item,
                is_replay(render_source),
                self.show_raw_agent_reasoning,
                parse,
                render,
            ),
        ) by {}
        let snapshot = match render_source {
            ThreadItemRenderSource::Replay(ReplayKind::ThreadSnapshot) => true,
            _ => false,
        };
        if snapshot && turn_id.is_empty() {
            actions.push(WidgetAction::RequestRedraw);
        }
        actions
    }

    /// Replays an item.
    pub fn replay_thread_item<P: Fn(&str) -> String, F: Fn(&str) -> Vec<Line>>(
        &self,
        item: ThreadItem,
        turn_id: &str,
        replay_kind: ReplayKind,
        parse_assistant_markdown: &P,
        append_markdown: &F,
    ) -> (actions: Vec<WidgetAction>)
        requires
            is_parser(*parse_assistant_markdown),
            styled::is_renderer(*append_markdown),
        ensures
            forall|
                parse: spec_fn(Seq<char>) -> Seq<char>,
                render: spec_fn(Seq<char>) -> Seq<styled::LineView>,
            | #[trigger]
                parses_as(*parse_assistant_markdown, parse) && #[trigger] styled::renders_as(
                    *append_markdown,
                    render,
                ) ==> are_actions(
                    actions@,
                    item_actions(
                        item,
                        turn_id@,
                        ThreadItemRenderSource::Replay(replay_kind),
                        self.show_raw_agent_reasoning,
                        parse,
                        render,
                    ),
                ),
    {
        self.handle_thread_item(
            item,
            turn_id,
            ThreadItemRenderSource::Replay(replay_kind),
            parse_assistant_markdown,
            append_markdown,
        )
    }

    /// Replays a turn.
    fn replay_turn<P: Fn(&str) -> String, F: Fn(&str) -> Vec<Line>>(
        &self,
        turn: Turn,
        replay_kind: ReplayKind,
        parse_assistant_markdown: &P,
        append_markdown: &F,
    ) -> (actions: Vec<WidgetAction>)
        requires
            is_parser(*parse_assistant_markdown),
            styled::is_renderer(*append_markdown),
        ensures
            forall|
                parse: spec_fn(Seq<char>) -> Seq<char>,
                render: spec_fn(Seq<char>) -> Seq<styled::LineView>,
            | #[trigger]
                parses_as(*parse_assistant_markdown, parse) && #[trigger] styled::renders_as(
                    *append_markdown,
                    render,
                ) ==> are_actions(
                    actions@,
                    turn_actions(
                        turn,
                        self.thread_id,
                        replay_kind,
                        self.show_raw_agent_reasoning,
                        parse,
                        render,
                    ),
                ),
    {
        let ghost whole = turn;
        let ghost source = ThreadItemRenderSource::Replay(replay_kind);
        let ghost show_raw = self.show_raw_agent_reasoning;
        let Turn { id, items, status, error, started_at, completed_at, duration_ms } = turn;
        let ghost all = items@;
        let mut actions: Vec<WidgetAction> = Vec::new();
        let in_progress = match status {
            TurnStatus::InProgress => true,
            _ => false,
        };
        if in_progress {
            actions.push(WidgetAction::ClearLastNonRetryError);
            actions.push(WidgetAction::StartTask);
        }
        assert(are_actions(actions@, turn_start(whole)));
        assert forall|
            parse: spec_fn(Seq<char>) -> Seq<char>,
            render: spec_fn(Seq<char>) -> Seq<styled::LineView>,
        | #[trigger]
            parses_as(*parse_assistant_markdown, parse) && #[trigger] styled::renders_as(
                *append_markdown,
                render,
            ) implies are_actions(
            actions@,
            turn_start(whole) + items_actions(
                all.take(0),
                id@,
                source,
                show_raw,
                parse,
                render,
            ),
        ) by {
            assert(turn_start(whole) + items_actions(
                all.take(0),
                id@,
                source,
                show_raw,
                parse,
                render,
            ) =~= turn_start(whole));
        }
        for item in it: items.into_iter()
            invariant
                it.seq() == all,
                is_parser(*parse_assistant_markdown),
                styled::is_renderer(*append_markdown),
                source == ThreadItemRenderSource::Replay(replay_kind),
                show_raw == self.show_raw_agent_reasoning,
                forall|
                    parse: spec_fn(Seq<char>) -> Seq<char>,
                    render: spec_fn(Seq<char>) -> Seq<styled::LineView>,
                | #[trigger]
                    parses_as(*parse_assistant_markdown, parse) && #[trigger] styled::renders_as(
                        *append_markdown,
                        render,
                    ) ==> are_actions(
                        actions@,
                        turn_start(whole) + items_actions(
                            all.take(it.index() as int),
                            id@,
                            source,
                            show_raw,
                            parse,
                            render,
                        ),
                    ),
        {
            let ghost index = it.index() as int;
            let ghost before = actions@;
            let mut own = self.replay_thread_item(
                item,
                id.as_str(),
                replay_kind,
                parse_assistant_markdown,
                append_markdown,
            );
            let ghost added = own@;
            actions.append(&mut own);
            proof {
                assert(actions@ == before + added);
                let taken = all.take(index + 1);
                assert(taken.drop_last() =~= all.take(index));
                assert(taken.last() == item);
                assert forall|
                    parse: spec_fn(Seq<char>) -> Seq<char>,
                    render: spec_fn(Seq<char>) -> Seq<styled::LineView>,
                | #[trigger]
                    parses_as(*parse_assistant_markdown, parse) && #[trigger] styled::renders_as(
                        *append_markdown,
                        render,
                    ) implies are_actions(
                    actions@,
                    turn_start(whole) + items_actions(
                        taken,
                        id@,
                        source,
                        show_raw,
                        parse,
                        render,
                    ),
                ) by {
                    let head = items_actions(
                        all.take(index),
                        id@,
                        source,
                        show_raw,
                        parse,
                        render,
                    );
                    let views = item_actions(item, id@, source, show_raw, parse, render);
                    lemma_actions_add(before, added, turn_start(whole) + head, views);
                    assert(turn_start(whole) + (head + views) =~= turn_start(whole) + head + views);
                }
            }
        }
        assert(all.take(all.len() as int) =~= all);
        let ghost before = actions@;
        let ghost end_views = turn_end(whole, self.thread_id, replay_kind);
        if !in_progress {
            let thread_id = match &self.thread_id {
                Some(thread_id) => thread_id.text.clone(),
                None => String::new(),
            };
            assert(thread_id@ =~= id_text(self.thread_id));
            let turn = TurnEnd { id, status, error, started_at, completed_at, duration_ms };
            actions.push(WidgetAction::CompleteTurn { thread_id, turn, replay_kind });
        }
        proof {
            let added = actions@.skip(before.len() as int);
            assert(actions@ =~= before + added);
            assert(are_actions(added, end_views));
            assert forall|
                parse: spec_fn(Seq<char>) -> Seq<char>,
                render: spec_fn(Seq<char>) -> Seq<styled::LineView>,
            | #[trigger]
                parses_as(*parse_assistant_markdown, parse) && #[trigger] styled::renders_as(
                    *append_markdown,
                    render,
                ) implies are_actions(
                actions@,
                turn_actions(whole, self.thread_id, replay_kind, show_raw, parse, render),
            ) by {
                let head = turn_start(whole) + items_actions(
                    all,
                    whole.id@,
                    source,
                    show_raw,
                    parse,
                    render,
                );
                lemma_actions_add(before, added, head, end_views);
            }
        }
        actions
    }

    /// Replays turns.
    pub fn replay_thread_turns<P: Fn(&str) -> String, F: Fn(&str) -> Vec<Line>>(
        &self,
        turns: Vec<Turn>,
        replay_kind: ReplayKind,
        parse_assistant_markdown: &P,
        append_markdown: &F,
    ) -> (actions: Vec<WidgetAction>)
        requires
            is_parser(*parse_assistant_markdown),
            styled::is_renderer(*append_markdown),
        ensures
            forall|
                parse: spec_fn(Seq<char>) -> Seq<char>,
                render: spec_fn(Seq<char>) -> Seq<styled::LineView>,
            | #[trigger]
                parses_as(*parse_assistant_markdown, parse) && #[trigger] styled::renders_as(
                    *append_markdown,
                    render,
                ) ==> are_actions(
                    actions@,
                    turns_actions(
                        turns@,
                        self.thread_id,
                        replay_kind,
                        self.show_raw_agent_reasoning,
                        parse,
                        render,
                    ),
                ),
    {
        let ghost all = turns@;
        let mut actions: Vec<WidgetAction> = Vec::new();
        assert(all.take(0) =~= Seq::<Turn>::empty());
        for turn in it: turns.into_iter()
            invariant
                it.seq() == all,
                is_parser(*parse_assistant_markdown),
                styled::is_renderer(*append_markdown),
                forall|
                    parse: spec_fn(Seq<char>) -> Seq<char>,
                    render: spec_fn(Seq<char>) -> Seq<styled::LineView>,
                | #[trigger]
                    parses_as(*parse_assistant_markdown, parse) && #[trigger] styled::renders_as(
                        *append_markdown,
                        render,
                    ) ==> are_actions(
                        actions@,
                        turns_actions(
                            all.take(it.index() as int),
                            self.thread_id,
                            replay_kind,
                            self.show_raw_agent_reasoning,
                            parse,
                            render,
                        ),
                    ),
        {
            let ghost index = it.index() as int;
            let ghost before = actions@;
            let ghost whole = turn;
            let mut own = self.replay_turn(
                turn,
                replay_kind,
                parse_assistant_markdown,
                append_markdown,
            );
            let ghost added = own@;
            actions.append(&mut own);
            proof {
                assert(actions@ == before + added);
                let taken = all.take(index + 1);
                assert(taken.drop_last() =~= all.take(index));
                assert(taken.last() == whole);
                assert forall|
                    parse: spec_fn(Seq<char>) -> Seq<char>,
                    render: spec_fn(Seq<char>) -> Seq<styled::LineView>,
                | #[trigger]
                    parses_as(*parse_assistant_markdown, parse) && #[trigger] styled::renders_as(
                        *append_markdown,
                        render,
                    ) implies are_actions(
                    actions@,
                    turns_actions(
                        taken,
                        self.thread_id,
                        replay_kind,
                        self.show_raw_agent_reasoning,
                        parse,
                        render,
                    ),
                ) by {
                    lemma_actions_add(
                        before,
                        added,
                        turns_actions(
                            all.take(index),
                            self.thread_id,
                            replay_kind,
                            self.show_raw_agent_reasoning,
                            parse,
                            render,
                        ),
                        turn_actions(
                            whole,
                            self.thread_id,
                            replay_kind,
                            self.show_raw_agent_reasoning,
                            parse,
                            render,
                        ),
                    );
                }
            }
        }
        assert(all.take(all.len() as int) =~= all);
        actions
    }
}

// ---------------------------------------------------------------------------
// What replaying avoids
// ---------------------------------------------------------------------------
/// Whether an action takes an item for a live one.
pub open spec fn is_live(view: ActionView) -> bool {
    match view {
        ActionView::Plain(WidgetAction::CommitUserMessage { from_replay, .. }) => !from_replay,
        ActionView::Plain(WidgetAction::CompleteAgentMessage { .. }) => true,
        ActionView::Plain(WidgetAction::EnterReviewMode { from_replay, .. }) => !from_replay,
        _ => false,
    }
}

proof fn lemma_items_are_not_live(
    items: Seq<ThreadItem>,
    turn_id: Seq<char>,
    kind: ReplayKind,
    show_raw: bool,
    parse: spec_fn(Seq<char>) -> Seq<char>,
    render: spec_fn(Seq<char>) -> Seq<styled::LineView>,
    i: int,
)
    requires
        0 <= i < items_actions(
            items,
            turn_id,
            ThreadItemRenderSource::Replay(kind),
            show_raw,
            parse,
            render,
        ).len(),
    ensures
        !is_live(
            items_actions(
                items,
                turn_id,
                ThreadItemRenderSource::Replay(kind),
                show_raw,
                parse,
                render,
            )[i],
        ),
    decreases items.len(),
{
    if items.len() > 0 {
        let source = ThreadItemRenderSource::Replay(kind);
        let head = items_actions(items.drop_last(), turn_id, source, show_raw, parse, render);
        if i < head.len() {
            lemma_items_are_not_live(
                items.drop_last(),
                turn_id,
                kind,
                show_raw,
                parse,
                render,
                i,
            );
        } else {
            let own = item_actions(items.last(), turn_id, source, show_raw, parse, render);
            assert(!is_live(own[i - head.len()]));
        }
    }
}

/// Replaying turns never takes one of their items for a live one.
pub proof fn law_replay_is_never_live(
    turns: Seq<Turn>,
    thread_id: Option<ThreadId>,
    kind: ReplayKind,
    show_raw: bool,
    parse: spec_fn(Seq<char>) -> Seq<char>,
    render: spec_fn(Seq<char>) -> Seq<styled::LineView>,
    i: int,
)
    requires
        0 <= i < turns_actions(turns, thread_id, kind, show_raw, parse, render).len(),
    ensures
        !is_live(turns_actions(turns, thread_id, kind, show_raw, parse, render)[i]),
    decreases turns.len(),
{
    if turns.len() > 0 {
        let head = turns_actions(turns.drop_last(), thread_id, kind, show_raw, parse, render);
        if i < head.len() {
            law_replay_is_never_live(
                turns.drop_last(),
                thread_id,
                kind,
                show_raw,
                parse,
                render,
                i,
            );
        } else {
            let turn = turns.last();
            let start = turn_start(turn);
            let items = items_actions(
                turn.items@,
                turn.id@,
                ThreadItemRenderSource::Replay(kind),
                show_raw,
                parse,
                render,
            );
            let at = i - head.len() - start.len();
            if 0 <= at < items.len() {
                lemma_items_are_not_live(
                    turn.items@,
                    turn.id@,
                    kind,
                    show_raw,
                    parse,
                    render,
                    at,
                );
            }
        }
    }
}

// ---------------------------------------------------------------------------
// What replaying shows and keeps
// ---------------------------------------------------------------------------
/// A replayed reply is shown once, from its source where that is not blank and from its text
/// otherwise, and is drawn at the end. A final answer, and a reply of no known phase, is
/// kept as the last markdown: its source where that is not blank, and otherwise what is
/// shown; nothing is kept any longer where that is empty. A reply of any other phase leaves
/// the last markdown as it is.
pub proof fn law_replayed_answers_are_kept(
    text: Seq<char>,
    source_text: Option<Seq<char>>,
    source_segments: Option<Seq<Seq<char>>>,
    phase: Option<MessagePhase>,
    parse: spec_fn(Seq<char>) -> Seq<char>,
    render: spec_fn(Seq<char>) -> Seq<styled::LineView>,
)
    ensures
        ({
            let actions = message_actions(text, source_text, source_segments, phase, parse, render);
            let known = source_text is Some && !strings::blank(source_text->0);
            let shown = if known {
                parse(source_text->0)
            } else {
                parse(text)
            };
            let answer = phase is None || phase == Some(MessagePhase::FinalAnswer);
            &&& actions[0] matches ActionView::AddToHistory(cell)
            &&& cell.lines == render(shown)
            &&& cell.source_segments == source_segments
            &&& known ==> cell.raw_markdown == source_text
            &&& !known ==> cell.raw_markdown is None
            &&& actions.last() == ActionView::Plain(WidgetAction::RequestRedraw)
            &&& !answer ==> actions.len() == 2
            &&& answer ==> actions.len() == 3
            &&& answer && known ==> actions[1] == ActionView::RecordAgentMarkdown(source_text->0)
            &&& answer && !known && shown.len() > 0 ==> actions[1]
                == ActionView::RecordAgentMarkdown(shown)
            &&& answer && !known && shown.len() == 0 ==> actions[1] == ActionView::Plain(
                WidgetAction::ClearLastAgentMarkdown,
            )
        }),
{
}

/// Turns are replayed one behind the other. A turn that is still running clears the last
/// error and starts a task before its items, and any other turn is completed behind them,
/// under the thread that is shown.
pub proof fn law_turns_are_replayed_in_order(
    turns: Seq<Turn>,
    turn: Turn,
    thread_id: Option<ThreadId>,
    kind: ReplayKind,
    show_raw: bool,
    parse: spec_fn(Seq<char>) -> Seq<char>,
    render: spec_fn(Seq<char>) -> Seq<styled::LineView>,
)
    ensures
        turns_actions(Seq::<Turn>::empty(), thread_id, kind, show_raw, parse, render).len() == 0,
        ({
            let source = ThreadItemRenderSource::Replay(kind);
            let old_actions = turns_actions(turns, thread_id, kind, show_raw, parse, render);
            let all = turns_actions(turns.push(turn), thread_id, kind, show_raw, parse, render);
            let items = items_actions(turn.items@, turn.id@, source, show_raw, parse, render);
            &&& turn.status is InProgress ==> all == old_actions + seq![
                ActionView::Plain(WidgetAction::ClearLastNonRetryError),
                ActionView::Plain(WidgetAction::StartTask),
            ] + items
            &&& !(turn.status is InProgress) ==> {
                &&& all.len() == old_actions.len() + items.len() + 1
                &&& all.drop_last() == old_actions + items
                &&& all.last() matches ActionView::CompleteTurn {
                    thread_id: named,
                    turn: end,
                    replay_kind,
                }
                &&& thread_id is Some ==> named == thread_id->0@
                &&& thread_id is None ==> named.len() == 0
                &&& replay_kind == kind
                &&& end.id == turn.id && end.status == turn.status && end.error == turn.error
                &&& end.started_at == turn.started_at && end.completed_at == turn.completed_at
                &&& end.duration_ms == turn.duration_ms
            }
        }),
{
    let source = ThreadItemRenderSource::Replay(kind);
    let items = items_actions(turn.items@, turn.id@, source, show_raw, parse, render);
    let old_actions = turns_actions(turns, thread_id, kind, show_raw, parse, render);
    let all = turns_actions(turns.push(turn), thread_id, kind, show_raw, parse, render);
    assert(turns.push(turn).drop_last() =~= turns);
    assert(all == old_actions + turn_actions(turn, thread_id, kind, show_raw, parse, render));
    if turn.status is InProgress {
        assert(all =~= old_actions + seq![
            ActionView::Plain(WidgetAction::ClearLastNonRetryError),
            ActionView::Plain(WidgetAction::StartTask),
        ] + items);
    } else {
        assert(all.drop_last() =~= old_actions + items);
        assert(all.last() == turn_end(turn, thread_id, kind)[0]);
    }
}

/// Items are replayed one behind the other. An item of a shown thread that belongs to no turn
/// is drawn right away.
pub proof fn law_items_are_replayed_in_order(
    items: Seq<ThreadItem>,
    item: ThreadItem,
    turn_id: Seq<char>,
    source: ThreadItemRenderSource,
    show_raw: bool,
    parse: spec_fn(Seq<char>) -> Seq<char>,
    render: spec_fn(Seq<char>) -> Seq<styled::LineView>,
)
    ensures
        items_actions(Seq::<ThreadItem>::empty(), turn_id, source, show_raw, parse, render).len()
            == 0,
        items_actions(items.push(item), turn_id, source, show_raw, parse, render) == items_actions(
            items,
            turn_id,
            source,
            show_raw,
            parse,
            render,
        ) + item_actions(item, turn_id, source, show_raw, parse, render),
        ({
            let own = own_actions(item, source is Replay, show_raw, parse, render);
            let all = item_actions(item, turn_id, source, show_raw, parse, render);
            if turn_id.len() == 0 && source == ThreadItemRenderSource::Replay(
                ReplayKind::ThreadSnapshot,
            ) {
                all == own.push(ActionView::Plain(WidgetAction::RequestRedraw))
            } else {
                all == own
            }
        }),
{
    assert(items.push(item).drop_last() =~= items);
}

/// A replayed thought is told in the parts of its summary and, where thoughts are shown raw,
/// of its content behind them, and is then finished. A live one was told already.
pub proof fn law_replayed_thoughts_are_told_in_parts(
    summary: Vec<String>,
    content: Vec<String>,
    show_raw: bool,
    parse: spec_fn(Seq<char>) -> Seq<char>,
    render: spec_fn(Seq<char>) -> Seq<styled::LineView>,
    i: int,
)
    ensures
        ({
            let item = ThreadItem::Reasoning { summary, content };
            let actions = own_actions(item, true, show_raw, parse, render);
            let count = summary@.len() as int;
            &&& actions.last() == ActionView::Plain(WidgetAction::ReasoningFinal)
            &&& show_raw ==> actions.len() == count + content@.len() + 1
            &&& !show_raw ==> actions.len() == count + 1
            &&& 0 <= i < count ==> actions[i] == ActionView::Plain(
                WidgetAction::ReasoningDelta(summary@[i]),
            )
            &&& show_raw && 0 <= i < content@.len() ==> actions[count + i] == ActionView::Plain(
                WidgetAction::ReasoningDelta(content@[i]),
            )
            &&& own_actions(item, false, show_raw, parse, render) == seq![
                ActionView::Plain(WidgetAction::ReasoningFinal),
            ]
        }),
{
    let item = ThreadItem::Reasoning { summary, content };
    let none = Seq::<ActionView>::empty();
    assert(none.push(ActionView::Plain(WidgetAction::ReasoningFinal)) =~= seq![
        ActionView::Plain(WidgetAction::ReasoningFinal),
    ]);
}

/// Work that is still going on is started, and work that is done is completed; a file change
/// that is still going on shows nothing. A web search begins and ends, and does something
/// other than what is known where nothing is known of it.
pub proof fn law_work_is_started_or_completed(
    item: u64,
    id: String,
    query: String,
    action: Option<WebSearchAction>,
    from_replay: bool,
    show_raw: bool,
    parse: spec_fn(Seq<char>) -> Seq<char>,
    render: spec_fn(Seq<char>) -> Seq<styled::LineView>,
)
    ensures
        own_actions(
            ThreadItem::CommandExecution { in_progress: true, item },
            from_replay,
            show_raw,
            parse,
            render,
        ) == seq![ActionView::Plain(WidgetAction::StartCommandExecution { item })],
        own_actions(
            ThreadItem::CommandExecution { in_progress: false, item },
            from_replay,
            show_raw,
            parse,
            render,
        ) == seq![ActionView::Plain(WidgetAction::CompleteCommandExecution { item })],
        own_actions(
            ThreadItem::McpToolCall { in_progress: true, item },
            from_replay,
            show_raw,
            parse,
            render,
        ) == seq![ActionView::Plain(WidgetAction::StartMcpToolCall { item })],
        own_actions(
            ThreadItem::McpToolCall { in_progress: false, item },
            from_replay,
            show_raw,
            parse,
            render,
        ) == seq![ActionView::Plain(WidgetAction::CompleteMcpToolCall { item })],
        own_actions(
            ThreadItem::FileChange { in_progress: true, item },
            from_replay,
            show_raw,
            parse,
            render,
        ).len() == 0,
        own_actions(
            ThreadItem::FileChange { in_progress: false, item },
            from_replay,
            show_raw,
            parse,
            render,
        ) == seq![ActionView::Plain(WidgetAction::CompleteFileChange { item })],
        ({
            let search = ThreadItem::WebSearch { id, query, action };
            let actions = own_actions(search, from_replay, show_raw, parse, render);
            &&& actions.len() == 2
            &&& actions[0] == ActionView::Plain(WidgetAction::BeginWebSearch { id })
            &&& action matches Some(known) ==> actions[1] == ActionView::Plain(
                WidgetAction::EndWebSearch { id, query, action: known },
            )
            &&& action is None ==> actions[1] == ActionView::Plain(
                WidgetAction::EndWebSearch { id, query, action: WebSearchAction::Other },
            )
        }),
{
}

/// A replayed reply is shown and kept as such, and a live one is handed on as it came. A
/// message of the user says whether it is replayed. Entering a review is shown only when it is
/// replayed, and leaving one always.
pub proof fn law_replies_are_replayed_or_handed_on(
    reply: ThreadItem,
    item: u64,
    review: String,
    from_replay: bool,
    show_raw: bool,
    parse: spec_fn(Seq<char>) -> Seq<char>,
    render: spec_fn(Seq<char>) -> Seq<styled::LineView>,
)
    ensures
        reply matches ThreadItem::AgentMessage {
            id,
            text,
            source_text,
            source_segments,
            phase,
            memory_citation,
        } ==> {
            let live = own_actions(reply, false, show_raw, parse, render);
            &&& own_actions(reply, true, show_raw, parse, render) == message_actions(
                text@,
                strings::opt_text(source_text),
                protocol::opt_texts(source_segments),
                phase,
                parse,
                render,
            )
            &&& live.len() == 1
            &&& live[0] matches ActionView::Plain(
                WidgetAction::CompleteAgentMessage { message, from_replay: replayed },
            )
            &&& !replayed
            &&& message.id == id && message.text == text && message.phase == phase
            &&& memory_citation is None ==> message.memory_citation is None
            &&& memory_citation matches Some(citation) ==> {
                &&& message.memory_citation is Some
                &&& message.memory_citation->0.entries == citation.entries
                &&& message.memory_citation->0.rollout_ids == citation.thread_ids
            }
        },
        own_actions(ThreadItem::UserMessage { item }, from_replay, show_raw, parse, render)
            == seq![ActionView::Plain(WidgetAction::CommitUserMessage { item, from_replay })],
        own_actions(ThreadItem::EnteredReviewMode { review }, true, show_raw, parse, render)
            == seq![ActionView::Plain(WidgetAction::EnterReviewMode { review, from_replay: true })],
        own_actions(
            ThreadItem::EnteredReviewMode { review },
            false,
            show_raw,
            parse,
            render,
        ).len() == 0,
        own_actions(ThreadItem::ExitedReviewMode, from_replay, show_raw, parse, render) == seq![
            ActionView::Plain(WidgetAction::ExitReviewMode),
        ],
{
}

/// A replayed reply is a cell of its own, which starts the reply, has no markers and shows
/// its lines without links.
pub proof fn law_replayed_cells_start_a_reply(action: WidgetAction, view: ReplayedCellView, i: int)
    requires
        is_action(action, ActionView::AddToHistory(view)),
        0 <= i < view.lines.len(),
    ensures
        action matches WidgetAction::AddToHistory(cell) && {
            &&& cell.is_first_line
            &&& cell.branch_markers@.len() == 0
            &&& cell.lines@.len() == view.lines.len()
            &&& cell.lines@[i].line@ == view.lines[i]
            &&& cell.lines@[i].links is None
            &&& strings::opt_text(cell.raw_markdown) == view.raw_markdown
            &&& protocol::opt_texts(cell.source_segments) == view.source_segments
        },
{
    if let WidgetAction::AddToHistory(cell) = action {
        assert(cell.lines@[i]@ == history_cell::unlinked(view.lines[i]));
    }
}

} // verus!
