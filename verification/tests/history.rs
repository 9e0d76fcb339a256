use reply_branching::branch_locator::locate_branch_snippet;
use reply_branching::marker_position::absolute_marker_byte_offset;
use reply_branching::pending_marker::pending_direct_child_branch_marker;
use reply_branching::protocol::{ThreadForkSnapshot, ThreadItem, Turn, TurnStatus};
use reply_branching::read_point::{
    branch_interruption_note, inclusive_char_boundary, truncate_assistant_message,
    truncate_rollout_at_assistant_read_anchor, truncate_rollout_at_latest_assistant_read_anchor,
    BRANCH_NOTE,
};
use reply_branching::rollout::{
    assistant_message_positions_in_rollout, fork_turn_positions_in_rollout,
    initial_history_has_prior_user_turns, truncate_rollout_before_nth_user_message_from_start,
    truncate_rollout_to_last_n_fork_turns, user_message_positions_in_rollout, ContentItem,
    ItemReading, ResponseItem, RolloutEntry, RolloutItem, TurnItemKind,
};
use reply_branching::styled::{Line, Style};
use reply_branching::threads::Thread;

fn message(role: &str, texts: &[&str]) -> ResponseItem {
    ResponseItem::Message {
        id: Some("id".to_string()),
        role: role.to_string(),
        content: texts
            .iter()
            .map(|text| ContentItem::OutputText {
                text: text.to_string(),
            })
            .collect(),
        end_turn: Some(true),
        phase: None,
    }
}

fn entry(
    item: RolloutItem,
    user_turn_boundary: bool,
    turn_item: Option<TurnItemKind>,
    trigger_turn: Option<bool>,
) -> RolloutEntry {
    RolloutEntry {
        item,
        reading: ItemReading {
            user_turn_boundary,
            turn_item,
            trigger_turn,
        },
    }
}

fn user(text: &str) -> RolloutEntry {
    entry(
        RolloutItem::ResponseItem(message("user", &[text])),
        true,
        Some(TurnItemKind::UserMessage),
        None,
    )
}

fn assistant(texts: &[&str]) -> RolloutEntry {
    entry(
        RolloutItem::ResponseItem(message("assistant", texts)),
        false,
        Some(TurnItemKind::AgentMessage),
        None,
    )
}

fn envelope(trigger_turn: bool) -> RolloutEntry {
    entry(
        RolloutItem::ResponseItem(message("assistant", &["{}"])),
        true,
        None,
        Some(trigger_turn),
    )
}

fn rolled_back(num_turns: u32) -> RolloutEntry {
    entry(
        RolloutItem::ThreadRolledBack { num_turns },
        false,
        None,
        None,
    )
}

fn other() -> RolloutEntry {
    entry(RolloutItem::Other { key: 9 }, false, None, None)
}

fn records(entries: &[RolloutEntry]) -> Vec<RolloutItem> {
    entries.iter().map(|entry| entry.item.clone()).collect()
}

#[test]
fn user_messages_are_found_after_rolling_back() {
    let items = [
        user("a"),
        assistant(&["x"]),
        user("b"),
        rolled_back(1),
        user("c"),
        other(),
        user("d"),
    ];
    assert_eq!(user_message_positions_in_rollout(&items), vec![0, 4, 6]);
    assert_eq!(
        user_message_positions_in_rollout(&[user("a"), user("b"), rolled_back(7)]),
        Vec::<usize>::new()
    );
    assert_eq!(
        user_message_positions_in_rollout(&[user("a"), rolled_back(0)]),
        vec![0]
    );
}

#[test]
fn fork_turns_are_user_messages_and_triggering_envelopes() {
    let items = [
        user("a"),
        envelope(true),
        envelope(false),
        assistant(&["x"]),
        user("b"),
    ];
    assert_eq!(fork_turn_positions_in_rollout(&items), vec![0, 1, 4]);
    // Rolling back two turns of instructions takes the envelopes with them.
    let items = [user("a"), envelope(true), envelope(false), rolled_back(2)];
    assert_eq!(fork_turn_positions_in_rollout(&items), vec![0]);
    let items = [user("a"), envelope(true), rolled_back(0)];
    assert_eq!(fork_turn_positions_in_rollout(&items), vec![0, 1]);
    let items = [user("a"), envelope(true), rolled_back(9), user("b")];
    assert_eq!(fork_turn_positions_in_rollout(&items), vec![3]);
    let mut item = envelope(true);
    item.item = RolloutItem::ResponseItem(message("user", &["{}"]));
    assert_eq!(fork_turn_positions_in_rollout(&[item]), Vec::<usize>::new());
}

#[test]
fn assistant_messages_of_rolled_back_turns_are_gone() {
    let items = [
        user("a"),
        assistant(&["x"]),
        user("b"),
        assistant(&["y"]),
        assistant(&["z"]),
        rolled_back(1),
        assistant(&["w"]),
    ];
    assert_eq!(assistant_message_positions_in_rollout(&items), vec![1, 6]);
    let items = [assistant(&["x"]), rolled_back(1)];
    assert_eq!(assistant_message_positions_in_rollout(&items), vec![0]);
}

#[test]
fn prior_turns_are_turns_of_instructions() {
    assert!(!initial_history_has_prior_user_turns(&[]));
    assert!(!initial_history_has_prior_user_turns(&[
        assistant(&["x"]),
        rolled_back(1),
        other()
    ]));
    assert!(initial_history_has_prior_user_turns(&[other(), user("a")]));
}

#[test]
fn rollouts_are_cut_before_a_user_message() {
    let items = [user("a"), assistant(&["x"]), user("b"), assistant(&["y"])];
    assert_eq!(
        truncate_rollout_before_nth_user_message_from_start(&items, 0),
        Vec::new()
    );
    assert_eq!(
        truncate_rollout_before_nth_user_message_from_start(&items, 1),
        records(&items[..2])
    );
    for number in [2, 3, usize::MAX] {
        assert_eq!(
            truncate_rollout_before_nth_user_message_from_start(&items, number),
            records(&items)
        );
    }
}

#[test]
fn rollouts_are_cut_to_the_last_fork_turns() {
    let items = [user("a"), assistant(&["x"]), user("b"), assistant(&["y"])];
    assert_eq!(truncate_rollout_to_last_n_fork_turns(&items, 0), Vec::new());
    assert_eq!(
        truncate_rollout_to_last_n_fork_turns(&items, 1),
        records(&items[2..])
    );
    for number in [2, 3] {
        assert_eq!(
            truncate_rollout_to_last_n_fork_turns(&items, number),
            records(&items)
        );
    }
}

#[test]
fn anchored_rollouts_end_at_the_read_character() {
    let items = [
        user("a"),
        assistant(&["one ", "twö three", "four"]),
        user("b"),
        assistant(&["y"]),
    ];
    let cut = truncate_rollout_at_assistant_read_anchor(&items, 0, 1, 2).unwrap();
    assert_eq!(
        cut,
        vec![
            items[0].item.clone(),
            RolloutItem::ResponseItem(message("assistant", &["one ", "twö"])),
            RolloutItem::ResponseItem(branch_interruption_note()),
        ]
    );
    // An offset inside a character takes the whole character in.
    assert_eq!(
        truncate_rollout_at_assistant_read_anchor(&items, 0, 1, 3).unwrap(),
        cut
    );
    let latest = truncate_rollout_at_latest_assistant_read_anchor(&items, 0, 0).unwrap();
    assert_eq!(latest.len(), 5);
    assert_eq!(latest[3], items[3].item);
    assert_eq!(
        latest,
        truncate_rollout_at_assistant_read_anchor(&items, 1, 0, 0).unwrap()
    );
}

#[test]
fn pieces_without_output_text_do_not_count_as_lines() {
    let item = ResponseItem::Message {
        id: None,
        role: "assistant".to_string(),
        content: vec![
            ContentItem::Other { key: 1 },
            ContentItem::OutputText {
                text: "ab".to_string(),
            },
            ContentItem::InputText {
                text: "in".to_string(),
            },
            ContentItem::OutputText {
                text: "cd".to_string(),
            },
        ],
        end_turn: None,
        phase: None,
    };
    let cut = truncate_assistant_message(&item, 1, 0, 4).unwrap();
    let ResponseItem::Message { content, .. } = cut else {
        panic!("expected a message");
    };
    assert_eq!(content.len(), 4);
    assert_eq!(
        content[3],
        ContentItem::OutputText {
            text: "c".to_string()
        }
    );
    assert_eq!(
        truncate_assistant_message(&item, 2, 0, 4)
            .unwrap_err()
            .message,
        "assistant message index 4 has no source line 2"
    );
    assert_eq!(
        truncate_assistant_message(&item, 0, 2, 4)
            .unwrap_err()
            .message,
        "assistant message index 4 has no byte offset 2 on line 0"
    );
    assert_eq!(
        truncate_assistant_message(&message("user", &["x"]), 0, 0, 4)
            .unwrap_err()
            .message,
        "assistant message index 4 does not reference an assistant message"
    );
    assert_eq!(
        truncate_assistant_message(&ResponseItem::Other { key: 0 }, 0, 0, 4)
            .unwrap_err()
            .message,
        "assistant message index 4 does not reference a message"
    );
}

#[test]
fn anchors_outside_of_the_rollout_are_refused() {
    let items = [user("a"), assistant(&["x"])];
    assert_eq!(
        truncate_rollout_at_assistant_read_anchor(&items, 1, 0, 0)
            .unwrap_err()
            .message,
        "assistant message index 1 is out of range"
    );
    assert_eq!(
        truncate_rollout_at_latest_assistant_read_anchor(&items[..1], 0, 0)
            .unwrap_err()
            .message,
        "latest assistant read anchor requires an assistant message"
    );
    assert_eq!(inclusive_char_boundary("aé", 1).unwrap(), 3);
    assert_eq!(inclusive_char_boundary("aé", 2).unwrap(), 3);
    assert_eq!(
        inclusive_char_boundary("aé", 3).unwrap_err().message,
        "byte offset 3 is not within assistant text content"
    );
}

#[test]
fn the_note_tells_what_was_not_read() {
    assert_eq!(
        branch_interruption_note(),
        ResponseItem::Message {
            id: None,
            role: "developer".to_string(),
            content: vec![ContentItem::InputText {
                text: BRANCH_NOTE.to_string()
            }],
            end_turn: None,
            phase: None,
        }
    );
    assert_eq!(
        BRANCH_NOTE,
        "Branch context note: the user branched from the prior assistant reply at the preserved read point. Content that originally followed that point was not read and has been excluded from this branch context."
    );
}

fn render(text: &str) -> Vec<Line> {
    text.split('\n')
        .map(|line| Line::of_text(line, Style::plain()))
        .collect()
}

#[test]
fn a_branch_reads_through_the_selected_item() {
    let segments = ["Intro.\n\n- first: ä", "öü\n  more\n- second\n\nEnd."];
    let whole = segments.concat();
    let turn = Turn {
        id: "turn".to_string(),
        items: vec![ThreadItem::AgentMessage {
            id: "item".to_string(),
            text: "shown".to_string(),
            source_text: Some(whole),
            source_segments: Some(segments.iter().map(ToString::to_string).collect()),
            phase: None,
            memory_citation: None,
        }],
        status: TurnStatus::Completed,
        error: None,
        started_at: None,
        completed_at: None,
        duration_ms: None,
    };
    let items = [user("question"), assistant(&segments), user("later")];
    for (snippet, read) in [
        ("Intro.", vec!["Intro."]),
        ("first: äöü", vec![segments[0], "öü\n  more"]),
        ("äöü more", vec![segments[0], "öü\n  more"]),
        ("second", vec![segments[0], "öü\n  more\n- second"]),
        ("End.", segments.to_vec()),
    ] {
        let target =
            locate_branch_snippet(&[], Some(&[turn.clone()]), None, snippet, &render).unwrap();
        let ThreadForkSnapshot::LatestAssistantReadAnchor {
            source_line_index,
            source_byte_offset,
        } = target.snapshot
        else {
            panic!("expected the latest reply");
        };
        let history = truncate_rollout_at_latest_assistant_read_anchor(
            &items,
            source_line_index as usize,
            source_byte_offset as usize,
        )
        .unwrap();
        assert_eq!(
            history,
            vec![
                items[0].item.clone(),
                RolloutItem::ResponseItem(message("assistant", &read)),
                RolloutItem::ResponseItem(branch_interruption_note()),
            ]
        );
    }
}

#[test]
fn the_last_fork_turns_stay_fork_turns() {
    let items = [
        user("a"),
        user("b"),
        assistant(&["x"]),
        user("c"),
        rolled_back(1),
        envelope(true),
        user("d"),
        envelope(true),
        rolled_back(1),
        user("e"),
    ];
    let positions = fork_turn_positions_in_rollout(&items);
    assert_eq!(positions, vec![0, 1, 5, 6, 9]);
    for (index, start) in positions.iter().enumerate() {
        let later: Vec<usize> = positions[index..]
            .iter()
            .map(|position| position - start)
            .collect();
        assert_eq!(fork_turn_positions_in_rollout(&items[*start..]), later);
        assert_eq!(
            fork_turn_positions_in_rollout(&items[..*start]),
            positions[..index].to_vec()
        );
    }
}

#[test]
fn the_origin_of_a_branch_leads_back_to_its_last_character() {
    let segments = ["Intro.\n\n- first: ä", "öü\n- second"];
    let turn = Turn {
        id: "turn".to_string(),
        items: vec![ThreadItem::AgentMessage {
            id: "item".to_string(),
            text: String::new(),
            source_text: Some(segments.concat()),
            source_segments: Some(segments.iter().map(ToString::to_string).collect()),
            phase: None,
            memory_citation: None,
        }],
        status: TurnStatus::Completed,
        error: None,
        started_at: None,
        completed_at: None,
        duration_ms: None,
    };
    let target =
        locate_branch_snippet(&[], Some(&[turn]), None, "first: äöü", &render).unwrap();
    let child = Thread {
        id: "child".to_string(),
        thread_id: None,
        forked_from_id: None,
        forked_from_thread_id: None,
        branch_depth: Some(1),
        branch_anchor_summary: target.selection_summary,
        branch_anchor_head_summary: None,
        branch_anchor_tail_summary: None,
        branch_origin_snapshot: Some(target.origin_snapshot),
        updated_at: 0,
    };
    let marker = pending_direct_child_branch_marker(&child, None).unwrap();
    let stored: Vec<String> = segments.iter().map(ToString::to_string).collect();
    let offset = absolute_marker_byte_offset(Some(&stored), &marker).unwrap();
    assert!(segments.concat()[offset..].starts_with("ü\n"));
}

#[test]
fn a_rollout_without_fork_turns_is_kept_whole() {
    let items = [assistant(&["x"]), other(), rolled_back(1)];
    for number in [0, 1, usize::MAX] {
        assert_eq!(
            truncate_rollout_to_last_n_fork_turns(&items, number),
            records(&items)
        );
    }
    assert_eq!(truncate_rollout_to_last_n_fork_turns(&[], 0), Vec::new());
    let rolled = [user("a"), rolled_back(1)];
    assert_eq!(
        truncate_rollout_to_last_n_fork_turns(&rolled, 0),
        records(&rolled)
    );
}
