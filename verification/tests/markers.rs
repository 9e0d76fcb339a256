use reply_branching::agent_markers::{
    add_branch_marker, branch_marker_block_style, marker_block_lines,
    new_unresolved_branch_markers_event, AgentDisplayLine, AgentDisplayLineKind,
    UnresolvedBranchMarkerInfo,
};
use reply_branching::child_load::{start_child_load, ChildLoadAction};
use reply_branching::child_markers::{unresolved_reason_of, ChildBranchMarkers};
use reply_branching::decoration::{
    display_source_lines, split_hyperlink_line_at_byte_offset,
};
use reply_branching::history_cell::{
    source_lines_plain_text, AgentBranchMarker, AgentMessageCell, HistoryCell, HyperlinkLine,
};
use reply_branching::line_split::{
    next_char_boundary, split_line_at_byte_offset, split_offset_after_anchor,
    trim_hyperlink_line_leading_spaces,
};
use reply_branching::marker_position::{
    absolute_marker_byte_offset, display_byte_offset_for_raw_line_anchor,
    display_line_index_for_raw_line, display_source_position_for_marker,
    exclusive_marker_byte_offset, normalize_marker_source_line,
    raw_line_position_for_absolute_byte_offset, snap_branch_marker_display_offset,
};
use reply_branching::pending_marker::{
    direct_child_branch_markers_for_thread, latest_assistant_message_index_for_thread,
    needs_latest_assistant_message_index, pending_direct_child_branch_marker,
    pending_direct_child_branch_marker_unresolved_reason_text, PendingDirectChildBranchMarker,
    PendingDirectChildBranchMarkerAnchor, PendingDirectChildBranchMarkerUnresolvedReason,
};
use reply_branching::protocol::{ThreadForkSnapshot, ThreadItem, Turn, TurnStatus};
use reply_branching::styled::{line_plain_text, Color, Line, Span, Style, BOLD, DIM};
use reply_branching::threads::{
    child_thread_list_params, collect_child_threads, Thread, ThreadId, ThreadPage,
};

fn block_style() -> Style {
    branch_marker_block_style(&|red: u8, green: u8, blue: u8| Color::Rgb(red, green, blue))
}

fn truncate_text(text: &str, max_graphemes: usize) -> String {
    text.chars().take(max_graphemes).collect()
}

fn remap(line: &HyperlinkLine, parts: Vec<Line>) -> Vec<HyperlinkLine> {
    parts
        .into_iter()
        .map(|part| HyperlinkLine {
            line: part,
            links: line.links,
        })
        .collect()
}

/// A renderer that drops the marks of emphasis and joins the lines of a paragraph.
fn render(text: &str) -> Vec<Line> {
    if text.is_empty() {
        return Vec::new();
    }
    text.replace("**", "")
        .split('\n')
        .map(|line| Line::of_text(line, Style::plain()))
        .collect()
}

fn line(text: &str) -> HyperlinkLine {
    HyperlinkLine::new(Line::of_text(text, Style::plain()))
}

fn marker(line: usize, offset: usize, suffix: &str) -> AgentBranchMarker {
    AgentBranchMarker {
        source_line_index: line,
        source_byte_offset: offset,
        branch_depth: 1,
        branch_id_suffix: suffix.to_string(),
        selection_summary: format!(" {suffix} "),
    }
}

fn shown(lines: &[AgentDisplayLine]) -> Vec<(String, AgentDisplayLineKind)> {
    lines
        .iter()
        .map(|line| (line_plain_text(&line.line.line), line.kind))
        .collect()
}

fn text_of(text: &str, use_agent_bullet: bool) -> (String, AgentDisplayLineKind) {
    (
        text.to_string(),
        AgentDisplayLineKind::Message { use_agent_bullet },
    )
}

fn chrome(text: &str) -> (String, AgentDisplayLineKind) {
    (text.to_string(), AgentDisplayLineKind::BranchChrome)
}

fn block(suffixes: &[&str]) -> Vec<(String, AgentDisplayLineKind)> {
    let mut lines = vec![chrome(""), chrome("")];
    for suffix in suffixes {
        lines.push(chrome(&format!("⎇ Branch d1 · {suffix}: \"...{suffix}\"")));
    }
    lines.push(chrome(""));
    lines.push(chrome(""));
    lines
}

#[test]
fn markers_are_kept_in_the_order_of_their_places() {
    let mut markers = Vec::new();
    for (line, offset, suffix) in [(1, 0, "a"), (0, 5, "b"), (1, 0, "c"), (0, 2, "d")] {
        add_branch_marker(&mut markers, marker(line, offset, suffix));
    }
    let order: Vec<&str> = markers
        .iter()
        .map(|marker| marker.branch_id_suffix.as_str())
        .collect();
    assert_eq!(order, vec!["d", "b", "a", "c"]);
}

#[test]
fn lines_without_markers_are_shown_as_they_are() {
    let lines = [line("one"), line("two")];
    let first = display_source_lines(&lines, true, &[], block_style(), &truncate_text, &remap);
    assert_eq!(shown(&first), vec![text_of("one", true), text_of("two", false)]);
    let later = display_source_lines(&lines, false, &[], block_style(), &truncate_text, &remap);
    assert_eq!(shown(&later), vec![text_of("one", false), text_of("two", false)]);
}

#[test]
fn markers_split_their_line_behind_the_anchor() {
    let lines = [line("one two three"), line("four"), line("")];
    let markers = [
        marker(0, 6, "b"),
        marker(0, 2, "a"),
        marker(0, 6, "c"),
        marker(2, 0, "e"),
        marker(7, 0, "lost"),
    ];
    let output =
        display_source_lines(&lines, true, &markers, block_style(), &truncate_text, &remap);
    let mut expected = vec![text_of("one", true)];
    expected.extend(block(&["a"]));
    // What was trimmed behind a marker counts for the next split.
    expected.push(text_of("two ", false));
    expected.extend(block(&["b", "c"]));
    expected.push(text_of("three", false));
    expected.push(text_of("four", false));
    expected.extend(block(&["e"]));
    assert_eq!(shown(&output), expected);
}

#[test]
fn decorating_keeps_the_text_but_for_spaces() {
    let text = "Größe  zählt. Oder   nicht?";
    let lines = [line(text)];
    for first in 0..text.len() + 2 {
        for second in first..text.len() + 2 {
            let markers = [marker(0, first, "a"), marker(0, second, "b")];
            let output =
                display_source_lines(&lines, true, &markers, block_style(), &truncate_text, &remap);
            let kept: String = shown(&output)
                .into_iter()
                .filter(|(_, kind)| matches!(kind, AgentDisplayLineKind::Message { .. }))
                .map(|(text, _)| text)
                .collect();
            assert_eq!(kept.replace(' ', ""), text.replace(' ', ""));
        }
    }
}

#[test]
fn marker_blocks_are_styled() {
    let style = block_style();
    assert_eq!(style.bg, Some(Color::Rgb(19, 53, 74)));
    let mut long = marker(0, 0, "ab12");
    long.selection_summary = format!("  {}", "x".repeat(60));
    long.branch_depth = 12;
    let lines = marker_block_lines(&[long], style, &truncate_text);
    assert_eq!(lines.len(), 5);
    assert_eq!(lines[0].line.line.style, Style::plain());
    assert_eq!(lines[1].line.line.style, style);
    assert_eq!(lines[3].line.line.style, style);
    assert_eq!(lines[4].line.line.style, Style::plain());
    let bold = Style::plain().with_modifier(BOLD);
    assert_eq!(
        lines[2].line.line.spans,
        vec![
            Span::raw("⎇ "),
            Span::styled("Branch ", bold),
            Span::styled("d12 · ab12", Style::plain().cyan().with_modifier(BOLD)),
            Span::raw(": "),
            Span::styled(
                &format!("\"...{}\"", "x".repeat(48)),
                Style::plain().with_modifier(DIM)
            ),
        ]
    );
}

#[test]
fn markers_without_a_place_are_listed() {
    let lines = new_unresolved_branch_markers_event(
        &[UnresolvedBranchMarkerInfo {
            branch_depth: 2,
            branch_id_suffix: "9f00".to_string(),
            selection_summary: "point".to_string(),
        }],
        block_style(),
        &truncate_text,
    );
    let texts: Vec<String> = lines.iter().map(line_plain_text).collect();
    assert_eq!(
        texts,
        vec![
            "• Some child branches could not be placed inline and are shown here:".to_string(),
            String::new(),
            String::new(),
            "⎇ Branch d2 · 9f00: \"...point\"".to_string(),
            String::new(),
            String::new(),
        ]
    );
    assert_eq!(lines[3].style, block_style());
    assert_eq!(lines[5].style, Style::plain());
}

#[test]
fn lines_are_split_at_boundaries() {
    let style = Style::plain().with_modifier(BOLD);
    let line = Line::of_spans(
        vec![Span::raw("aé"), Span::styled("", style), Span::styled("bc", style)],
        style,
    );
    let split = |at: usize| {
        let (left, right) = split_line_at_byte_offset(&line, at);
        assert_eq!(left.style, style);
        assert_eq!(right.style, style);
        (line_plain_text(&left), line_plain_text(&right))
    };
    let pair = |left: &str, right: &str| (left.to_string(), right.to_string());
    assert_eq!(split(0), pair("", "aébc"));
    assert_eq!(split(1), pair("a", "ébc"));
    assert_eq!(split(2), pair("aé", "bc"));
    assert_eq!(split(3), pair("aé", "bc"));
    assert_eq!(split(4), pair("aéb", "c"));
    assert_eq!(split(9), pair("aébc", ""));
    let (left, right) = split_line_at_byte_offset(&line, 4);
    assert_eq!(
        left.spans,
        vec![Span::raw("aé"), Span::styled("", style), Span::styled("b", style)]
    );
    assert_eq!(right.spans, vec![Span::styled("c", style)]);
    let linked = HyperlinkLine {
        line,
        links: Some(5),
    };
    let (left, right) = split_hyperlink_line_at_byte_offset(&linked, 3, &remap);
    assert_eq!((left.links, right.links), (Some(5), Some(5)));
    let nothing = |_: &HyperlinkLine, _: Vec<Line>| -> Vec<HyperlinkLine> { Vec::new() };
    let (left, _) = split_hyperlink_line_at_byte_offset(&linked, 3, &nothing);
    assert_eq!(left, HyperlinkLine::new(Line::of_spans(Vec::new(), Style::plain())));
}

#[test]
fn leading_spaces_are_trimmed_over_spans() {
    let style = Style::plain().with_modifier(DIM);
    let line = HyperlinkLine {
        line: Line::of_spans(
            vec![
                Span::raw("  "),
                Span::raw(""),
                Span::styled(" \ta ", style),
                Span::raw(" b"),
            ],
            style,
        ),
        links: Some(1),
    };
    let trimmed = trim_hyperlink_line_leading_spaces(&line);
    assert_eq!(
        trimmed.line.spans,
        vec![Span::styled("\ta ", style), Span::raw(" b")]
    );
    assert_eq!(trimmed.line.style, style);
    assert_eq!(trimmed.links, None);
    assert_eq!(
        source_lines_plain_text(&[line, trimmed]),
        vec!["   \ta  b".to_string(), "\ta  b".to_string()]
    );
}

#[test]
fn offsets_move_to_boundaries() {
    let text = "aé";
    let next: Vec<usize> = (0..5).map(|offset| next_char_boundary(text, offset)).collect();
    assert_eq!(next, vec![0, 1, 3, 3, 3]);
    let behind: Vec<Option<usize>> = (0..5)
        .map(|offset| split_offset_after_anchor(text, offset))
        .collect();
    assert_eq!(behind, vec![Some(1), Some(3), Some(3), Some(3), Some(3)]);
    assert_eq!(split_offset_after_anchor("", 0), Some(0));
}

fn pending(index: usize, line: usize, offset: usize) -> PendingDirectChildBranchMarker {
    PendingDirectChildBranchMarker {
        anchor_kind: PendingDirectChildBranchMarkerAnchor::AssistantRead,
        assistant_message_index: index,
        source_line_index: line,
        source_byte_offset: offset,
        branch_depth: 1,
        branch_id_suffix: "cafe".to_string(),
        selection_summary: "summary".to_string(),
        unresolved_reason: None,
    }
}

fn strings(lines: &[&str]) -> Vec<String> {
    lines.iter().map(ToString::to_string).collect()
}

#[test]
fn anchors_are_bytes_of_the_whole_text() {
    let segments = strings(&["ab", "cde"]);
    let offset = |line, byte| absolute_marker_byte_offset(Some(&segments), &pending(0, line, byte));
    assert_eq!(offset(0, 2), Some(2));
    assert_eq!(offset(1, 0), Some(2));
    assert_eq!(offset(1, 3), Some(5));
    assert_eq!(offset(1, 4), None);
    assert_eq!(offset(2, 0), None);
    assert_eq!(absolute_marker_byte_offset(None, &pending(0, 0, 77)), Some(77));
    assert_eq!(absolute_marker_byte_offset(None, &pending(0, 1, 0)), None);
}

#[test]
fn read_text_ends_behind_its_last_character() {
    let ends: Vec<usize> = (0..7)
        .map(|offset| exclusive_marker_byte_offset("aé\nb", offset))
        .collect();
    assert_eq!(ends, vec![1, 3, 3, 3, 5, 5, 5]);
}

#[test]
fn bytes_lie_in_lines() {
    let positions: Vec<Option<(usize, usize)>> = (0..6)
        .map(|offset| raw_line_position_for_absolute_byte_offset("ab\n\nc", offset))
        .collect();
    assert_eq!(
        positions,
        vec![
            Some((0, 0)),
            Some((0, 1)),
            Some((0, 2)),
            Some((1, 0)),
            Some((2, 0)),
            Some((2, 1))
        ]
    );
    assert_eq!(raw_line_position_for_absolute_byte_offset("ab\n\nc", 6), None);
}

#[test]
fn displayed_lines_are_recognized() {
    assert_eq!(normalize_marker_source_line("  **a** `b` "), "a b");
    let lines = strings(&["x", "a b", "a b"]);
    assert_eq!(display_line_index_for_raw_line(&lines, "**a** b"), Some(1));
    assert_eq!(display_line_index_for_raw_line(&lines, "y"), None);
    assert_eq!(
        display_byte_offset_for_raw_line_anchor("**a** b", "a b", 6, &render),
        Some(2)
    );
    assert_eq!(
        display_byte_offset_for_raw_line_anchor("**a** b", "x b", 6, &render),
        None
    );
    assert_eq!(
        display_byte_offset_for_raw_line_anchor("ab", "ab", 0, &render),
        Some(0)
    );
}

#[test]
fn places_are_found_directly_or_by_rendering() {
    let lines = strings(&["one two", "three"]);
    assert_eq!(
        display_source_position_for_marker(
            "**one** two\nthree",
            &lines,
            None,
            &pending(0, 0, 13),
            &render
        ),
        Some((1, 1))
    );
    // A continuation shows only the last lines of the reply.
    let joined = |text: &str| -> Vec<Line> {
        vec![Line::of_text(&text.replace('\n', " "), Style::plain())]
    };
    assert_eq!(
        display_source_position_for_marker(
            "one\ntwo three",
            &strings(&["one two three"]),
            None,
            &pending(0, 0, 6),
            &joined
        ),
        Some((0, 7))
    );
    assert_eq!(
        display_source_position_for_marker("one", &strings(&["x"]), None, &pending(0, 0, 1), &render),
        None
    );
    assert_eq!(
        display_source_position_for_marker("one", &lines, None, &pending(0, 1, 1), &render),
        None
    );
}

#[test]
fn markers_move_to_the_end_of_their_sentence() {
    let line = "One two. Three?! Four";
    assert_eq!(snap_branch_marker_display_offset(line, 0), 8);
    assert_eq!(snap_branch_marker_display_offset(line, 7), 8);
    assert_eq!(snap_branch_marker_display_offset(line, 8), 8);
    assert_eq!(snap_branch_marker_display_offset(line, 9), 16);
    assert_eq!(snap_branch_marker_display_offset(line, 15), 16);
    assert_eq!(snap_branch_marker_display_offset(line, 16), 16);
    assert_eq!(snap_branch_marker_display_offset(line, 17), line.len());
    assert_eq!(snap_branch_marker_display_offset(line, 99), line.len());
    assert_eq!(snap_branch_marker_display_offset("v1.2 is out.", 3), 12);
    assert_eq!(snap_branch_marker_display_offset("é!", 1), 3);
    assert_eq!(snap_branch_marker_display_offset("", 0), 0);
}

fn thread(id: &str, snapshot: Option<ThreadForkSnapshot>) -> Thread {
    Thread {
        id: id.to_string(),
        thread_id: Some(ThreadId::of_text(id)),
        forked_from_id: Some("parent".to_string()),
        forked_from_thread_id: Some(ThreadId::of_text("parent")),
        branch_depth: Some(3),
        branch_anchor_summary: None,
        branch_anchor_head_summary: None,
        branch_anchor_tail_summary: None,
        branch_origin_snapshot: snapshot,
        updated_at: 0,
    }
}

fn read_anchor(index: u32, line: u32, offset: u32) -> Option<ThreadForkSnapshot> {
    Some(ThreadForkSnapshot::AssistantReadAnchor {
        assistant_message_index: index,
        source_line_index: line,
        source_byte_offset: offset,
    })
}

fn latest_anchor(line: u32, offset: u32) -> Option<ThreadForkSnapshot> {
    Some(ThreadForkSnapshot::LatestAssistantReadAnchor {
        source_line_index: line,
        source_byte_offset: offset,
    })
}

#[test]
fn child_branches_become_markers() {
    let mut child = thread("id-12345", read_anchor(1, 2, 3));
    child.branch_anchor_tail_summary = Some("tail".to_string());
    let marker = pending_direct_child_branch_marker(&child, None).unwrap();
    assert_eq!(
        marker.anchor_kind,
        PendingDirectChildBranchMarkerAnchor::AssistantRead
    );
    assert_eq!(marker.assistant_message_index, 1);
    assert_eq!(marker.source_line_index, 2);
    assert_eq!(marker.source_byte_offset, 3);
    assert_eq!(marker.branch_depth, 3);
    assert_eq!(marker.branch_id_suffix, "5432");
    assert_eq!(marker.selection_summary, "tail");
    child.branch_anchor_head_summary = Some("head".to_string());
    child.branch_depth = None;
    child.branch_origin_snapshot = latest_anchor(0, 9);
    let marker = pending_direct_child_branch_marker(&child, Some(6)).unwrap();
    assert_eq!(
        marker.anchor_kind,
        PendingDirectChildBranchMarkerAnchor::LatestAssistantRead
    );
    assert_eq!(marker.assistant_message_index, 6);
    assert_eq!(marker.branch_depth, 0);
    assert_eq!(marker.selection_summary, "head");
    child.branch_anchor_summary = Some("own".to_string());
    let marker = pending_direct_child_branch_marker(&child, Some(6)).unwrap();
    assert_eq!(marker.selection_summary, "own");
    assert_eq!(pending_direct_child_branch_marker(&child, None), None);
    assert_eq!(
        pending_direct_child_branch_marker(
            &thread("x", Some(ThreadForkSnapshot::Interrupted)),
            Some(0)
        ),
        None
    );
    assert_eq!(pending_direct_child_branch_marker(&thread("x", None), Some(0)), None);
    let plain = pending_direct_child_branch_marker(&thread("x", read_anchor(0, 0, 0)), None);
    assert_eq!(plain.unwrap().selection_summary, "branch");
}

#[test]
fn child_markers_are_sorted_by_their_fork_points() {
    let children = [
        thread("b-0002", read_anchor(1, 0, 0)),
        thread("none", None),
        thread("a-0001", read_anchor(0, 1, 0)),
        thread("d-0009", read_anchor(0, 0, 7)),
        thread("c-0003", read_anchor(0, 0, 7)),
        thread("e-0000", latest_anchor(0, 0)),
    ];
    assert!(needs_latest_assistant_message_index(&children));
    assert!(!needs_latest_assistant_message_index(&children[..5]));
    let markers = direct_child_branch_markers_for_thread(&children, Some(2));
    let order: Vec<&str> = markers
        .iter()
        .map(|marker| marker.branch_id_suffix.as_str())
        .collect();
    assert_eq!(order, vec!["0003", "0009", "0001", "0002", "0000"]);
    assert_eq!(direct_child_branch_markers_for_thread(&children, None).len(), 4);
}

#[test]
fn only_direct_children_are_collected() {
    let mut stranger = thread("s", None);
    stranger.forked_from_id = Some("other".to_string());
    let mut root = thread("r", None);
    root.forked_from_id = None;
    let mut children = vec![thread("first", None)];
    collect_child_threads(
        &mut children,
        &[stranger, thread("second", None), root],
        "parent",
    );
    let ids: Vec<&str> = children.iter().map(|child| child.id.as_str()).collect();
    assert_eq!(ids, vec!["first", "second"]);
}

#[test]
fn the_latest_message_is_the_last_one() {
    let turn = |items: Vec<ThreadItem>| Turn {
        id: "turn".to_string(),
        items,
        status: TurnStatus::Completed,
        error: None,
        started_at: None,
        completed_at: None,
        duration_ms: None,
    };
    let agent = || ThreadItem::AgentMessage {
        id: String::new(),
        text: String::new(),
        source_text: None,
        source_segments: None,
        phase: None,
        memory_citation: None,
    };
    assert_eq!(latest_assistant_message_index_for_thread(&[]), None);
    assert_eq!(
        latest_assistant_message_index_for_thread(&[turn(vec![ThreadItem::HookPrompt])]),
        None
    );
    assert_eq!(
        latest_assistant_message_index_for_thread(&[
            turn(vec![agent(), ThreadItem::ExitedReviewMode]),
            turn(vec![agent(), agent()])
        ]),
        Some(2)
    );
}

fn message_cell(text: &str, is_first_line: bool, raw_markdown: Option<&str>) -> HistoryCell {
    HistoryCell::Message(AgentMessageCell::new_with_raw_markdown(
        render(text),
        is_first_line,
        raw_markdown.map(ToString::to_string),
    ))
}

fn markers_of(cell: &HistoryCell) -> Vec<(usize, usize)> {
    match cell {
        HistoryCell::Message(cell) => cell
            .branch_markers
            .iter()
            .map(|marker| (marker.source_line_index, marker.source_byte_offset))
            .collect(),
        _ => panic!("expected a message cell"),
    }
}

fn fresh(markers: Vec<PendingDirectChildBranchMarker>) -> ChildBranchMarkers {
    let mut state = ChildBranchMarkers {
        pending_direct_child_branch_markers: Vec::new(),
        next_assistant_history_cell_index: 5,
        current_assistant_message_source_line_offset: 6,
        current_assistant_message_source_byte_offset: 7,
    };
    state.prepare_direct_child_branch_markers(Some(markers));
    state
}

#[test]
fn markers_are_placed_in_the_cells_of_their_reply() {
    let mut state = fresh(vec![pending(0, 0, 20), pending(0, 0, 1), pending(1, 0, 0)]);
    let text = "First sentence. Second.\nThird line";
    let mut cell = message_cell(text, true, Some(text));
    state.decorate_inserted_agent_history_cell(&mut cell, &render);
    assert_eq!(markers_of(&cell), vec![(0, 15), (0, 23)]);
    assert_eq!(state.pending_direct_child_branch_markers, vec![pending(1, 0, 0)]);
    assert_eq!(state.next_assistant_history_cell_index, 1);
    assert_eq!(state.current_assistant_message_source_line_offset, 2);
    assert_eq!(state.current_assistant_message_source_byte_offset, text.len());
    // A continuation belongs to the same reply.
    let mut cell = message_cell("more", false, None);
    let HistoryCell::Message(continuation) = &cell else {
        panic!("expected a message cell");
    };
    assert_eq!(state.current_reply_index(continuation), 0);
    state.decorate_inserted_agent_history_cell(&mut cell, &render);
    assert_eq!(state.next_assistant_history_cell_index, 1);
    assert_eq!(state.current_assistant_message_source_line_offset, 3);
    let mut cell = message_cell("Next.", true, Some("Next."));
    state.decorate_inserted_agent_history_cell(&mut cell, &render);
    assert_eq!(markers_of(&cell), vec![(0, 5)]);
    assert_eq!(state.current_assistant_message_source_line_offset, 1);
    assert!(state.pending_direct_child_branch_markers.is_empty());
}

#[test]
fn markers_without_a_place_keep_their_reason() {
    let reason = |markers: &ChildBranchMarkers| {
        unresolved_reason_of(&markers.pending_direct_child_branch_markers[0])
    };
    let mut state = fresh(vec![pending(0, 0, 0)]);
    assert_eq!(
        reason(&state),
        PendingDirectChildBranchMarkerUnresolvedReason::NeverMatchedAssistantMessageCell
    );
    let mut cell = message_cell("x", true, None);
    state.decorate_inserted_agent_history_cell(&mut cell, &render);
    assert_eq!(
        reason(&state),
        PendingDirectChildBranchMarkerUnresolvedReason::MissingRawMarkdown
    );
    let mut state = fresh(vec![pending(0, 3, 0)]);
    let mut cell = message_cell("x", true, Some("x"));
    state.decorate_inserted_agent_history_cell(&mut cell, &render);
    assert_eq!(
        reason(&state),
        PendingDirectChildBranchMarkerUnresolvedReason::SourcePositionCouldNotBeMapped
    );
    let mut state = fresh(vec![pending(0, 0, 0)]);
    state.next_assistant_history_cell_index = 1;
    state.current_assistant_message_source_line_offset = usize::MAX;
    let mut cell = message_cell("x", false, Some("x"));
    state.decorate_inserted_agent_history_cell(&mut cell, &render);
    assert_eq!(
        reason(&state),
        PendingDirectChildBranchMarkerUnresolvedReason::MappedSourceLineOutsideCurrentCell
    );
    let names: Vec<&str> = [
        PendingDirectChildBranchMarkerUnresolvedReason::MissingRawMarkdown,
        PendingDirectChildBranchMarkerUnresolvedReason::SourcePositionCouldNotBeMapped,
        PendingDirectChildBranchMarkerUnresolvedReason::MappedSourceLineOutsideCurrentCell,
        PendingDirectChildBranchMarkerUnresolvedReason::NeverMatchedAssistantMessageCell,
    ]
    .into_iter()
    .map(pending_direct_child_branch_marker_unresolved_reason_text)
    .collect();
    assert_eq!(
        names,
        vec![
            "missing_raw_markdown",
            "source_position_could_not_be_mapped",
            "mapped_source_line_outside_current_cell",
            "never_matched_assistant_message_cell",
        ]
    );
}

#[test]
fn other_cells_change_nothing() {
    let mut state = fresh(vec![pending(0, 0, 0)]);
    let before = state.clone();
    let mut cell = HistoryCell::Other;
    state.decorate_inserted_agent_history_cell(&mut cell, &render);
    assert_eq!(state, before);
    assert_eq!(cell, HistoryCell::Other);
}

#[test]
fn flushing_shows_what_is_left_once() {
    let mut state = fresh(vec![pending(0, 0, 0)]);
    let lines = state
        .flush_unresolved_direct_child_branch_markers(block_style(), &truncate_text)
        .unwrap();
    assert_eq!(
        line_plain_text(&lines[3]),
        "⎇ Branch d1 · cafe: \"...summary\""
    );
    assert_eq!(
        state.flush_unresolved_direct_child_branch_markers(block_style(), &truncate_text),
        None
    );
    let mut state = fresh(vec![pending(0, 0, 0)]);
    state.prepare_direct_child_branch_markers(None);
    assert!(state.pending_direct_child_branch_markers.is_empty());
}

fn page(data: Vec<Thread>, next_cursor: Option<&str>) -> Option<ThreadPage> {
    Some(ThreadPage {
        data,
        next_cursor: next_cursor.map(ToString::to_string),
    })
}

fn suffixes(action: ChildLoadAction) -> Vec<String> {
    match action {
        ChildLoadAction::Finish(Some(markers)) => markers
            .into_iter()
            .map(|marker| marker.branch_id_suffix)
            .collect(),
        other => panic!("expected markers, got {other:?}"),
    }
}

#[test]
fn child_branches_are_loaded_page_by_page() {
    let (mut load, action) = start_child_load(ThreadId::of_text("parent"));
    assert_eq!(
        action,
        ChildLoadAction::ListThreads(child_thread_list_params(None))
    );
    let mut stranger = thread("s-0000", read_anchor(0, 0, 0));
    stranger.forked_from_id = Some("other".to_string());
    let action = load.on_page(page(
        vec![thread("b-0002", read_anchor(1, 0, 0)), stranger],
        Some("next"),
    ));
    assert_eq!(
        action,
        ChildLoadAction::ListThreads(child_thread_list_params(Some("next".to_string())))
    );
    let action = load.on_page(page(vec![thread("a-0001", read_anchor(0, 0, 0))], None));
    assert_eq!(suffixes(action), vec!["0001", "0002"]);
    let action = load.on_page(page(vec![thread("c-0003", latest_anchor(0, 0))], None));
    assert_eq!(
        action,
        ChildLoadAction::ReadTurns(ThreadId::of_text("parent"))
    );
    assert_eq!(suffixes(load.on_turns(None)), vec!["0001", "0002"]);
    let turn = Turn {
        id: "turn".to_string(),
        items: vec![ThreadItem::AgentMessage {
            id: String::new(),
            text: String::new(),
            source_text: None,
            source_segments: None,
            phase: None,
            memory_citation: None,
        }],
        status: TurnStatus::Completed,
        error: None,
        started_at: None,
        completed_at: None,
        duration_ms: None,
    };
    assert_eq!(
        suffixes(load.on_turns(Some(vec![turn]))),
        vec!["0001", "0003", "0002"]
    );
    assert_eq!(load.on_page(None), ChildLoadAction::Finish(None));
}
