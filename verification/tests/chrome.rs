use ratatui::style::Modifier;
use reply_branching::branch_chrome::{
    branch_chrome_debug_value_enables, branch_context_label, branch_state_body,
    branch_state_title, branch_thread_id_suffix, truncate_summary, BranchStateNoticeKind,
};
use reply_branching::branch_navigator::BranchNavigatorSelectionKind;
use reply_branching::branch_notice::BranchStateNoticeCell;
use reply_branching::branching::{
    branch_fork_context, enter_branch, finish_return_from_branch, fork_failure_message,
    navigator_selection_notice, return_failure_message, snippet_error_message, start_branch_from,
    start_return_from_branch, BranchForkContext,
};
use reply_branching::protocol::{ThreadForkSnapshot, ThreadItem, Turn, TurnStatus};
use reply_branching::snippet::BranchSnippetError;
use reply_branching::styled::{line_plain_text, Color, Line, Style, BOLD, DIM};
use reply_branching::threads::ThreadId;

fn modifiers(line: &Line) -> Modifier {
    Modifier::from_bits_truncate(line.style.add_modifier)
}

fn texts(lines: &[Line]) -> Vec<String> {
    lines.iter().map(line_plain_text).collect()
}

fn render(text: &str) -> Vec<Line> {
    text.split('\n')
        .map(|line| Line::of_text(line, Style::plain()))
        .collect()
}

#[test]
fn resumed_branch_notice_includes_previous_thread_usage() {
    let notice = BranchStateNoticeKind::Resumed {
        depth: 1,
        selection_summary: Some("Phase 2 migration".to_string()),
        previous_thread_usage_line: Some("Token usage: total=10 input=8 output=2".to_string()),
    };

    assert_eq!(
        branch_state_body(&notice),
        vec![
            "Branch focus: \"Phase 2 migration\"".to_string(),
            String::new(),
            "Previous thread token usage: total=10 input=8 output=2".to_string(),
            "Type your reply to continue in this branch.".to_string(),
        ]
    );
}

#[test]
fn returned_parent_notice_includes_previous_thread_usage() {
    let notice = BranchStateNoticeKind::ReturnedToParent {
        depth: 1,
        selection_summary: Some("Phase 2 migration".to_string()),
        previous_thread_usage_line: Some("Token usage: total=10 input=8 output=2".to_string()),
    };

    assert_eq!(
        branch_state_body(&notice),
        vec![
            "Returned branch focus: \"Phase 2 migration\"".to_string(),
            String::new(),
            "Previous thread token usage: total=10 input=8 output=2".to_string(),
            "Type your reply to continue in the parent thread.".to_string(),
        ]
    );
}

#[test]
fn notices_leave_out_what_is_not_known() {
    let notice = BranchStateNoticeKind::Resumed {
        depth: 1,
        selection_summary: Some(String::new()),
        previous_thread_usage_line: Some("total=1".to_string()),
    };
    assert_eq!(
        branch_state_body(&notice),
        vec![
            "Previous thread token usage: total=1".to_string(),
            "Type your reply to continue in this branch.".to_string(),
        ]
    );
    let notice = BranchStateNoticeKind::ReturnedToParent {
        depth: 1,
        selection_summary: None,
        previous_thread_usage_line: None,
    };
    assert_eq!(
        branch_state_body(&notice),
        vec!["Type your reply to continue in the parent thread.".to_string()]
    );
    let notice = BranchStateNoticeKind::BranchFrom {
        depth: 1,
        selection_summary: None,
    };
    assert_eq!(
        branch_state_body(&notice),
        vec!["Press Esc or /return to go back to the parent thread.".to_string()]
    );
}

#[test]
fn titles_name_the_branch() {
    let started = BranchStateNoticeKind::BranchFrom {
        depth: 2,
        selection_summary: None,
    };
    assert_eq!(branch_state_title(&started, ""), "Started branch d2");
    assert_eq!(branch_state_title(&started, "ab12"), "Started branch d2 · ab12");
    let branched = BranchStateNoticeKind::BranchFrom {
        depth: 2,
        selection_summary: Some("x".repeat(60)),
    };
    assert_eq!(
        branch_state_title(&branched, "ab12"),
        format!("Branched (branch d2 · ab12) from: {}…", "x".repeat(47))
    );
    let resumed = BranchStateNoticeKind::Resumed {
        depth: 1,
        selection_summary: None,
        previous_thread_usage_line: None,
    };
    assert_eq!(
        branch_state_title(&resumed, "1234"),
        "Resumed child branch d1 · 1234"
    );
    let returned = BranchStateNoticeKind::ReturnedToParent {
        depth: 10,
        selection_summary: None,
        previous_thread_usage_line: None,
    };
    assert_eq!(
        branch_state_title(&returned, ""),
        "Returned to parent from branch d10"
    );
}

#[test]
fn summaries_are_cut_at_a_number_of_characters() {
    assert_eq!(truncate_summary("äöü", 3), "äöü");
    assert_eq!(truncate_summary("äöüß", 3), "äö…");
    assert_eq!(truncate_summary("äöü", 1), "…");
    assert_eq!(truncate_summary("ä", 0), "…");
    assert_eq!(truncate_summary("", 0), "");
}

#[test]
fn labels_show_depth_name_and_anchor() {
    let id = ThreadId::of_text("019db89d-d85a-7901-bd8a-fef676f33457");
    assert_eq!(branch_thread_id_suffix(&id), "3457");
    assert_eq!(branch_thread_id_suffix(&ThreadId::of_text("ab")), "ab");
    assert_eq!(
        branch_context_label(3, Some(&id), Some("  your case "), None),
        "Child branch d3 · 3457 · \"...your case\" · Use /branch-list to switch"
    );
    assert_eq!(
        branch_context_label(1, None, Some(" "), Some(&ThreadForkSnapshot::Interrupted)),
        "Child branch d1 · Use /branch-list to switch"
    );
}

#[test]
fn debugging_is_switched_on_by_three_values() {
    for value in ["1", " true ", "TRUE", "Yes\n"] {
        assert!(branch_chrome_debug_value_enables(value));
    }
    for value in ["", "0", "on", "truee", "no"] {
        assert!(!branch_chrome_debug_value_enables(value));
    }
}

#[test]
fn display_lines_bold_previous_thread_token_usage() {
    let cell = BranchStateNoticeCell::new(
        "Resumed child branch d1 · 1234".to_string(),
        vec![
            "Branch focus: \"Phase 2\"".to_string(),
            String::new(),
            "Previous thread token usage: total=10 input=8 output=2".to_string(),
            "Type your reply to continue in this branch.".to_string(),
        ],
    );

    let lines = cell.display_lines(/*width*/ 80, Style::on(Color::Rgb(1, 2, 3)));

    assert!(modifiers(&lines[4]).contains(Modifier::BOLD));
    assert!(!modifiers(&lines[2]).contains(Modifier::BOLD));
    assert!(!modifiers(&lines[5]).contains(Modifier::BOLD));
}

#[test]
fn notice_lines_frame_the_title_and_the_body() {
    let style = Style::on(Color::Blue);
    let cell = BranchStateNoticeCell::new("Title".to_string(), vec!["one\ntwo".to_string()]);
    let lines = cell.display_lines(10, style);
    assert_eq!(lines.len(), 4);
    assert!(lines[0].spans.is_empty());
    assert_eq!(lines[0].style, style);
    assert_eq!(lines[1], Line::of_text("Title", style.with_modifier(BOLD)));
    assert_eq!(lines[2].spans.len(), 2);
    assert_eq!(lines[3], lines[0]);
    assert_eq!(
        cell.raw_lines(),
        vec![
            Line::of_text("Title", Style::plain()),
            Line::of_text("one\ntwo", Style::plain()),
        ]
    );
}

#[test]
fn modifiers_are_those_of_the_terminal() {
    assert_eq!(Modifier::BOLD.bits(), BOLD);
    assert_eq!(Modifier::DIM.bits(), DIM);
    let style = Style {
        fg: None,
        bg: None,
        add_modifier: DIM,
        sub_modifier: BOLD | DIM,
    };
    let bold = style.with_modifier(BOLD);
    assert_eq!(bold.add_modifier, BOLD | DIM);
    assert_eq!(bold.sub_modifier, DIM);
}

#[test]
fn a_text_is_a_line_with_a_span_for_each_of_its_lines() {
    let contents = |text: &str| -> Vec<String> {
        Line::of_text(text, Style::plain())
            .spans
            .into_iter()
            .map(|span| span.content)
            .collect()
    };
    assert_eq!(contents(""), Vec::<String>::new());
    assert_eq!(contents("a"), vec!["a".to_string()]);
    assert_eq!(contents("a\r\nb\n"), vec!["a".to_string(), "b".to_string()]);
    assert_eq!(contents("\n"), vec![String::new()]);
    assert_eq!(contents("a\rb"), vec!["a\rb".to_string()]);
}

fn agent_turn(text: &str) -> Turn {
    Turn {
        id: "turn".to_string(),
        items: vec![ThreadItem::AgentMessage {
            id: "item".to_string(),
            text: text.to_string(),
            source_text: None,
            source_segments: None,
            phase: None,
            memory_citation: None,
        }],
        status: TurnStatus::Completed,
        error: None,
        started_at: None,
        completed_at: None,
        duration_ms: None,
    }
}

#[test]
fn starting_a_branch_forks_below_the_parent() {
    let id = ThreadId::of_text("thread");
    assert_eq!(start_branch_from(Some(&id)), Ok(id));
    let turns = [agent_turn("first part.\n\nsecond part.")];
    let context =
        branch_fork_context(Ok(&turns), &[], None, "first part.", 2, &render).unwrap();
    assert_eq!(
        context,
        BranchForkContext {
            snapshot: ThreadForkSnapshot::LatestAssistantReadAnchor {
                source_line_index: 0,
                source_byte_offset: 10,
            },
            origin_snapshot: ThreadForkSnapshot::AssistantReadAnchor {
                assistant_message_index: 0,
                source_line_index: 0,
                source_byte_offset: 10,
            },
            branch_depth: 3,
            selection_summary: Some("first part.".to_string()),
            anchor_head_summary: Some("first part.".to_string()),
            anchor_tail_summary: Some("first part.".to_string()),
        }
    );
    let entered = enter_branch(Ok(()), &context).unwrap();
    assert_eq!(entered.branch_depth, 3);
    assert_eq!(
        entered.branch_anchor_selection_summary,
        context.selection_summary
    );
    assert_eq!(entered.branch_origin_snapshot, context.origin_snapshot);
    assert_eq!(
        texts(&entered.notice_lines),
        vec![
            "Branched (branch d3) from: first part.".to_string(),
            "Press Esc or /return to go back to the parent thread.".to_string(),
        ]
    );
}

#[test]
fn starting_a_branch_tells_what_failed() {
    assert_eq!(
        start_branch_from(None).unwrap_err(),
        "/branch-from is unavailable before the session starts."
    );
    assert_eq!(
        branch_fork_context(Err("down"), &[], None, "x", 0, &render).unwrap_err(),
        "Failed to inspect conversation history for /branch-from: down"
    );
    let turns = [agent_turn("reply")];
    let complaint = |turns: &[Turn], snippet: &str| {
        branch_fork_context(Ok(turns), &[], None, snippet, 0, &render).unwrap_err()
    };
    assert_eq!(
        complaint(&turns, " "),
        "Snippet is empty. Usage: /branch-from <text>"
    );
    assert_eq!(
        complaint(&[], "x"),
        "/branch-from requires at least one completed assistant response."
    );
    assert_eq!(
        complaint(&turns, "x"),
        "Snippet not found in any assistant response. Check the text and try again."
    );
    assert_eq!(
        complaint(&[agent_turn("reply reply")], "reply"),
        "Snippet matches multiple assistant responses — provide more context to disambiguate."
    );
    assert_eq!(
        complaint(&[agent_turn("older"), agent_turn("newer")], "older"),
        "Cannot anchor this snippet to a source line. Try selecting a longer or more distinctive excerpt."
    );
    assert_eq!(
        snippet_error_message(BranchSnippetError::NoMatch),
        "Snippet not found in any assistant response. Check the text and try again."
    );
    assert_eq!(
        fork_failure_message("down"),
        "Failed to create branch thread: down"
    );
    let context = BranchForkContext {
        snapshot: ThreadForkSnapshot::Interrupted,
        origin_snapshot: ThreadForkSnapshot::Interrupted,
        branch_depth: 1,
        selection_summary: None,
        anchor_head_summary: None,
        anchor_tail_summary: None,
    };
    assert_eq!(
        enter_branch(Err("down"), &context).unwrap_err(),
        "Failed to attach to branch thread: down"
    );
    assert_eq!(
        texts(&enter_branch(Ok(()), &context).unwrap().notice_lines)[0],
        "Started branch d1"
    );
}

#[test]
fn returning_from_a_branch_is_noticed() {
    let parent = ThreadId::of_text("parent");
    assert_eq!(start_return_from_branch(Some(&parent)), Ok(parent.clone()));
    assert_eq!(
        start_return_from_branch(None).unwrap_err(),
        "Not in a branch — no parent thread to return to."
    );
    assert_eq!(
        return_failure_message("down"),
        "Failed to return to parent thread: down"
    );
    assert_eq!(
        finish_return_from_branch(Err("down"), 1).unwrap_err(),
        "Failed to attach to parent thread: down"
    );
    for (depth, shown) in [(0, 1), (1, 1), (4, 4)] {
        assert_eq!(
            texts(&finish_return_from_branch(Ok(()), depth).unwrap()),
            vec![format!("Returned to parent from branch d{shown}")]
        );
    }
}

#[test]
fn only_a_return_to_an_active_ancestor_is_noticed() {
    let id = ThreadId::of_text("thread");
    let other = ThreadId::of_text("other");
    let back = BranchNavigatorSelectionKind::ReturnToAncestor;
    let open = BranchNavigatorSelectionKind::OpenCurrentOrDescendant;
    let notice = navigator_selection_notice(Some(&id), &id, back, 2).unwrap();
    assert_eq!(
        texts(&notice),
        vec!["Returned to parent from branch d2".to_string()]
    );
    assert_eq!(navigator_selection_notice(Some(&id), &id, back, 0), None);
    assert_eq!(navigator_selection_notice(Some(&id), &id, open, 2), None);
    assert_eq!(navigator_selection_notice(Some(&other), &id, back, 2), None);
    assert_eq!(navigator_selection_notice(None, &id, back, 2), None);
}
