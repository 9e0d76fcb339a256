use reply_branching::history_cell::{AgentMessageCell, HyperlinkLine};
use reply_branching::protocol::{
    MemoryCitation, MemoryCitationEntry, MessagePhase, ThreadItem, Turn, TurnStatus,
    WebSearchAction,
};
use reply_branching::replay::{
    AgentMessageItem, ChatWidget, ItemMemoryCitation, ReplayKind, ThreadItemRenderSource, TurnEnd,
    WidgetAction,
};
use reply_branching::styled::{Line, Style};
use reply_branching::threads::ThreadId;

fn widget() -> ChatWidget {
    ChatWidget {
        thread_id: Some(ThreadId::of_text("thread")),
        show_raw_agent_reasoning: false,
    }
}

fn parse(text: &str) -> String {
    text.replace("<hidden>", "")
}

fn render(text: &str) -> Vec<Line> {
    text.split('\n')
        .map(|line| Line::of_text(line, Style::plain()))
        .collect()
}

fn handle(item: ThreadItem, source: ThreadItemRenderSource) -> Vec<WidgetAction> {
    widget().handle_thread_item(item, "turn", source, &parse, &render)
}

fn replayed(item: ThreadItem) -> Vec<WidgetAction> {
    handle(
        item,
        ThreadItemRenderSource::Replay(ReplayKind::ThreadSnapshot),
    )
}

fn live(item: ThreadItem) -> Vec<WidgetAction> {
    handle(item, ThreadItemRenderSource::Live)
}

fn agent(text: &str, source: Option<&str>, phase: Option<MessagePhase>) -> ThreadItem {
    ThreadItem::AgentMessage {
        id: "id".to_string(),
        text: text.to_string(),
        source_text: source.map(ToString::to_string),
        source_segments: Some(vec!["segment".to_string()]),
        phase,
        memory_citation: Some(MemoryCitation {
            entries: vec![MemoryCitationEntry {
                path: "path".to_string(),
                line_start: 1,
                line_end: 2,
                note: "note".to_string(),
            }],
            thread_ids: vec!["a".to_string(), "b".to_string()],
        }),
    }
}

fn cell(text: &str, raw_markdown: Option<&str>) -> WidgetAction {
    WidgetAction::AddToHistory(AgentMessageCell {
        lines: render(text).into_iter().map(HyperlinkLine::new).collect(),
        is_first_line: true,
        raw_markdown: raw_markdown.map(ToString::to_string),
        source_segments: Some(vec!["segment".to_string()]),
        branch_markers: Vec::new(),
    })
}

#[test]
fn replayed_replies_show_their_source() {
    assert_eq!(
        replayed(agent("text", Some("a<hidden>\nb"), None)),
        vec![
            cell("a\nb", Some("a<hidden>\nb")),
            WidgetAction::RecordAgentMarkdown("a<hidden>\nb".to_string()),
            WidgetAction::RequestRedraw,
        ]
    );
    assert_eq!(
        replayed(agent("te<hidden>xt", Some(" "), Some(MessagePhase::FinalAnswer))),
        vec![
            cell("text", None),
            WidgetAction::RecordAgentMarkdown("text".to_string()),
            WidgetAction::RequestRedraw,
        ]
    );
    assert_eq!(
        replayed(agent("<hidden>", None, None)),
        vec![
            cell("", None),
            WidgetAction::ClearLastAgentMarkdown,
            WidgetAction::RequestRedraw,
        ]
    );
    assert_eq!(
        replayed(agent("text", None, Some(MessagePhase::Other { key: 1 }))),
        vec![cell("text", None), WidgetAction::RequestRedraw]
    );
}

#[test]
fn live_replies_are_completed() {
    assert_eq!(
        live(agent("text", Some("source"), None)),
        vec![WidgetAction::CompleteAgentMessage {
            message: AgentMessageItem {
                id: "id".to_string(),
                text: "text".to_string(),
                phase: None,
                memory_citation: Some(ItemMemoryCitation {
                    entries: vec![MemoryCitationEntry {
                        path: "path".to_string(),
                        line_start: 1,
                        line_end: 2,
                        note: "note".to_string(),
                    }],
                    rollout_ids: vec!["a".to_string(), "b".to_string()],
                }),
            },
            from_replay: false,
        }]
    );
}

#[test]
fn reasoning_is_replayed_in_parts() {
    let item = || ThreadItem::Reasoning {
        summary: vec!["s1".to_string(), "s2".to_string()],
        content: vec!["raw".to_string()],
    };
    let delta = |text: &str| WidgetAction::ReasoningDelta(text.to_string());
    assert_eq!(live(item()), vec![WidgetAction::ReasoningFinal]);
    assert_eq!(
        replayed(item()),
        vec![delta("s1"), delta("s2"), WidgetAction::ReasoningFinal]
    );
    let mut widget = widget();
    widget.show_raw_agent_reasoning = true;
    assert_eq!(
        widget.replay_thread_item(
            item(),
            "turn",
            ReplayKind::ResumeInitialMessages,
            &parse,
            &render
        ),
        vec![
            delta("s1"),
            delta("s2"),
            delta("raw"),
            WidgetAction::ReasoningFinal
        ]
    );
}

#[test]
fn every_other_item_has_its_action() {
    let text = || "text".to_string();
    let cases = vec![
        (
            ThreadItem::UserMessage { item: 1 },
            vec![WidgetAction::CommitUserMessage {
                item: 1,
                from_replay: true,
            }],
        ),
        (
            ThreadItem::Plan { text: text() },
            vec![WidgetAction::CompletePlan(text())],
        ),
        (
            ThreadItem::CommandExecution {
                in_progress: true,
                item: 2,
            },
            vec![WidgetAction::StartCommandExecution { item: 2 }],
        ),
        (
            ThreadItem::CommandExecution {
                in_progress: false,
                item: 2,
            },
            vec![WidgetAction::CompleteCommandExecution { item: 2 }],
        ),
        (
            ThreadItem::FileChange {
                in_progress: true,
                item: 3,
            },
            vec![],
        ),
        (
            ThreadItem::FileChange {
                in_progress: false,
                item: 3,
            },
            vec![WidgetAction::CompleteFileChange { item: 3 }],
        ),
        (
            ThreadItem::McpToolCall {
                in_progress: true,
                item: 4,
            },
            vec![WidgetAction::StartMcpToolCall { item: 4 }],
        ),
        (
            ThreadItem::McpToolCall {
                in_progress: false,
                item: 4,
            },
            vec![WidgetAction::CompleteMcpToolCall { item: 4 }],
        ),
        (
            ThreadItem::WebSearch {
                id: text(),
                query: "query".to_string(),
                action: None,
            },
            vec![
                WidgetAction::BeginWebSearch { id: text() },
                WidgetAction::EndWebSearch {
                    id: text(),
                    query: "query".to_string(),
                    action: WebSearchAction::Other,
                },
            ],
        ),
        (
            ThreadItem::WebSearch {
                id: text(),
                query: String::new(),
                action: Some(WebSearchAction::Targeted { key: 7 }),
            },
            vec![
                WidgetAction::BeginWebSearch { id: text() },
                WidgetAction::EndWebSearch {
                    id: text(),
                    query: String::new(),
                    action: WebSearchAction::Targeted { key: 7 },
                },
            ],
        ),
        (
            ThreadItem::ImageView { path: text() },
            vec![WidgetAction::ViewImage { path: text() }],
        ),
        (
            ThreadItem::ImageGeneration {
                id: text(),
                revised_prompt: None,
                saved_path: Some(text()),
            },
            vec![WidgetAction::EndImageGeneration {
                id: text(),
                revised_prompt: None,
                saved_path: Some(text()),
            }],
        ),
        (
            ThreadItem::EnteredReviewMode { review: text() },
            vec![WidgetAction::EnterReviewMode {
                review: text(),
                from_replay: true,
            }],
        ),
        (
            ThreadItem::ExitedReviewMode,
            vec![WidgetAction::ExitReviewMode],
        ),
        (
            ThreadItem::ContextCompaction,
            vec![WidgetAction::ShowInfo("Context compacted".to_string())],
        ),
        (ThreadItem::HookPrompt, vec![]),
        (
            ThreadItem::CollabAgentToolCall { item: 5 },
            vec![WidgetAction::CollabAgentToolCall { item: 5 }],
        ),
        (
            ThreadItem::SubAgentActivity { item: 6 },
            vec![WidgetAction::SubAgentActivity { item: 6 }],
        ),
        (ThreadItem::DynamicToolCall, vec![]),
    ];
    for (item, actions) in cases {
        assert_eq!(replayed(item), actions);
    }
    assert_eq!(
        live(ThreadItem::UserMessage { item: 1 }),
        vec![WidgetAction::CommitUserMessage {
            item: 1,
            from_replay: false,
        }]
    );
    assert_eq!(live(ThreadItem::EnteredReviewMode { review: text() }), vec![]);
}

#[test]
fn items_of_no_turn_are_drawn_at_once() {
    let drawn = |turn_id: &str, kind: ReplayKind| {
        widget()
            .replay_thread_item(ThreadItem::HookPrompt, turn_id, kind, &parse, &render)
            .len()
    };
    assert_eq!(drawn("", ReplayKind::ThreadSnapshot), 1);
    assert_eq!(drawn("turn", ReplayKind::ThreadSnapshot), 0);
    assert_eq!(drawn("", ReplayKind::ResumeInitialMessages), 0);
    assert!(widget()
        .handle_thread_item(
            ThreadItem::HookPrompt,
            "",
            ThreadItemRenderSource::Live,
            &parse,
            &render
        )
        .is_empty());
}

#[test]
fn turns_start_and_end_around_their_items() {
    let turn = |id: &str, status: TurnStatus| Turn {
        id: id.to_string(),
        items: vec![ThreadItem::ExitedReviewMode],
        status,
        error: Some(8),
        started_at: Some(1),
        completed_at: Some(2),
        duration_ms: Some(3),
    };
    let kind = ReplayKind::ResumeInitialMessages;
    let ended = |id: &str, status: TurnStatus, thread_id: &str| WidgetAction::CompleteTurn {
        thread_id: thread_id.to_string(),
        turn: TurnEnd {
            id: id.to_string(),
            status,
            error: Some(8),
            started_at: Some(1),
            completed_at: Some(2),
            duration_ms: Some(3),
        },
        replay_kind: kind,
    };
    assert_eq!(
        widget().replay_thread_turns(
            vec![
                turn("a", TurnStatus::Completed),
                turn("b", TurnStatus::Failed),
                turn("c", TurnStatus::InProgress),
            ],
            kind,
            &parse,
            &render
        ),
        vec![
            WidgetAction::ExitReviewMode,
            ended("a", TurnStatus::Completed, "thread"),
            WidgetAction::ExitReviewMode,
            ended("b", TurnStatus::Failed, "thread"),
            WidgetAction::ClearLastNonRetryError,
            WidgetAction::StartTask,
            WidgetAction::ExitReviewMode,
        ]
    );
    let mut nameless = widget();
    nameless.thread_id = None;
    assert_eq!(
        nameless.replay_thread_turns(
            vec![turn("a", TurnStatus::Interrupted)],
            kind,
            &parse,
            &render
        )[1],
        ended("a", TurnStatus::Interrupted, "")
    );
}
