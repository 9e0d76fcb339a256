use reply_branching::anchor::{
    inclusive_line_end_anchor, origin_snapshot_for_response, segment_local_anchor,
    snapshot_from_display_line_index,
};
use reply_branching::branch_locator::{
    branch_anchor_selection_summary, locate_branch_snippet, locate_in_latest_markdown_only,
};
use reply_branching::history_cell::{
    AgentMarkdownCell, AgentMessageCell, HistoryCell, HyperlinkLine,
};
use reply_branching::normalized::NormalizedText;
use reply_branching::protocol::{ThreadForkSnapshot, ThreadItem, Turn, TurnStatus};
use reply_branching::responses::{
    assistant_responses_from_cells, assistant_responses_from_turns, normalize_search_source_line,
};
use reply_branching::snippet::{
    find_unique_match, normalized_snippet_candidates, strip_main_view_assistant_chrome,
    strip_surrounding_quotes, BranchSnippetError,
};
use reply_branching::structure::{
    branch_anchor_head_summary, branch_anchor_tail_summary, is_list_item_start, next_char_boundary,
    previous_char_boundary, structure_end_line, structure_start_line,
};
use reply_branching::styled::{Line, Style};

fn render(text: &str) -> Vec<Line> {
    text.split('\n')
        .map(|line| Line::of_text(line, Style::plain()))
        .collect()
}

fn assistant_markdown_cell(text: &str) -> HistoryCell {
    HistoryCell::Markdown(AgentMarkdownCell {
        markdown_source: text.to_string(),
        lines: render(text).into_iter().map(HyperlinkLine::new).collect(),
    })
}

fn message_cell(
    text: &str,
    is_first_line: bool,
    raw_markdown: Option<&str>,
    segments: Option<Vec<String>>,
) -> HistoryCell {
    let mut cell = AgentMessageCell::new_with_raw_markdown(
        render(text),
        is_first_line,
        raw_markdown.map(ToString::to_string),
    );
    cell.set_source_segments(segments);
    HistoryCell::Message(cell)
}

fn separator_cell() -> HistoryCell {
    HistoryCell::Other
}

fn strings(lines: &[&str]) -> Vec<String> {
    lines.iter().map(ToString::to_string).collect()
}

fn agent_item(text: &str, source: Option<&str>, segments: Option<Vec<String>>) -> ThreadItem {
    ThreadItem::AgentMessage {
        id: "item".to_string(),
        text: text.to_string(),
        source_text: source.map(ToString::to_string),
        source_segments: segments,
        phase: None,
        memory_citation: None,
    }
}

fn turn(items: Vec<ThreadItem>) -> Turn {
    Turn {
        id: "turn".to_string(),
        items,
        status: TurnStatus::Completed,
        error: None,
        started_at: None,
        completed_at: None,
        duration_ms: None,
    }
}

#[test]
fn searches_all_assistant_responses_and_returns_older_anchor() {
    let target = locate_branch_snippet(
        &[
            assistant_markdown_cell(
                "QuickBooks does invoicing.\n- set invoice and due dates\n- track payments",
            ),
            separator_cell(),
            assistant_markdown_cell("newer response"),
        ],
        None,
        Some("newer response"),
        "- set invoice and due dates",
        &render,
    )
    .expect("snippet should match an older response");

    assert_eq!(
        target.snapshot,
        ThreadForkSnapshot::AssistantReadAnchor {
            assistant_message_index: 0,
            source_line_index: 0,
            source_byte_offset: 53,
        }
    );
    assert_eq!(
        target.anchor_head_summary.as_deref(),
        Some("- set invoice and due dates")
    );
    assert_eq!(
        target.anchor_tail_summary.as_deref(),
        Some("- set invoice and due dates")
    );
}

#[test]
fn searches_all_chunks_of_latest_streamed_assistant_response() {
    let target = locate_branch_snippet(
        &[],
        None,
        Some(
            "At a high level, a retainer consulting contract should pin down six things clearly:\n\n1. Scope and exclusions: exactly what you will do.\n2. Fee structure: monthly retainer amount, whether hours roll over, whether the\nretainer is earned on receipt or applied against time, overage rates,\ninvoicing cadence, payment terms, and late-fee rules.\n3. Capacity and service levels: how much availability the client is buying.\n4. Term and exit rules: start date, renewal, minimum term.",
        ),
        "2. Fee structure: monthly retainer amount, whether hours roll over, whether the\n     retainer is earned on receipt or applied against time",
        &render,
    )
    .expect("snippet should match an earlier chunk of the latest response");

    assert_eq!(
        target.snapshot,
        ThreadForkSnapshot::LatestAssistantReadAnchor {
            source_line_index: 0,
            source_byte_offset: 338,
        }
    );
}

#[test]
fn reports_ambiguous_snippet_across_assistant_responses() {
    let result = locate_branch_snippet(
        &[
            assistant_markdown_cell("repeat this"),
            separator_cell(),
            assistant_markdown_cell("repeat this"),
        ],
        None,
        Some("repeat this"),
        "repeat this",
        &render,
    );

    assert_eq!(result, Err(BranchSnippetError::AmbiguousMatch));
}

#[test]
fn returns_no_match_when_snippet_is_absent() {
    let result = locate_branch_snippet(
        &[assistant_markdown_cell("first reply"), separator_cell()],
        None,
        Some("latest reply"),
        "missing text",
        &render,
    );

    assert_eq!(result, Err(BranchSnippetError::NoMatch));
}

#[test]
fn anchors_against_latest_raw_markdown_when_visible_reply_spans_multiple_cells() {
    let result = locate_branch_snippet(
        &[
            assistant_markdown_cell(
                "1. Define the user problem precisely and verify that AI is actually the right tool for it.\n2. Choose one narrow, high-value use case before expanding into broader capabilities.\n3. Identify the input data, output quality bar, and failure modes early.\n4. Decide what level of accuracy, latency, and cost the product must hit to be viable.\n5. Design the human workflow around the AI, not just the model output itself.\n6. Plan for trust: explainability, review steps, confidence signals, and safe fallbacks.",
            ),
            assistant_markdown_cell(
                "7. Set clear boundaries for privacy, security, compliance, and data retention.\n8. Build evaluation from the start with realistic test cases and success metrics.\n9. Define the operating model: model/provider choice, pricing, monitoring, and iteration loop.\n10. Make the offer legible to buyers by stating outcome, scope, limitations, and ROI clearly.",
            ),
        ],
        None,
        Some(
            "1. Define the user problem precisely and verify that AI is actually the right tool for it.\n2. Choose one narrow, high-value use case before expanding into broader capabilities.\n3. Identify the input data, output quality bar, and failure modes early.\n4. Decide what level of accuracy, latency, and cost the product must hit to be viable.\n5. Design the human workflow around the AI, not just the model output itself.\n6. Plan for trust: explainability, review steps, confidence signals, and safe fallbacks.\n7. Set clear boundaries for privacy, security, compliance, and data retention.\n8. Build evaluation from the start with realistic test cases and success metrics.\n9. Define the operating model: model/provider choice, pricing, monitoring, and iteration loop.\n10. Make the offer legible to buyers by stating outcome, scope, limitations, and ROI clearly.",
        ),
        "7. Set clear boundaries for privacy, security, compliance, and data retention.",
        &render,
    )
    .expect("snippet should anchor against continuation lines");

    assert_eq!(
        result.anchor_head_summary.as_deref(),
        Some("7. Set clear boundaries for privacy, security, compliance,")
    );
    assert_eq!(
        result.anchor_tail_summary.as_deref(),
        Some("privacy, security, compliance, and data retention.")
    );
    match result.snapshot {
        ThreadForkSnapshot::LatestAssistantReadAnchor {
            source_byte_offset, ..
        } => assert!(source_byte_offset > 0),
        other => panic!("expected latest assistant anchor, got {other:?}"),
    }
}

#[test]
fn prefers_older_cell_match_to_latest_raw_markdown_when_snippet_unique_in_older() {
    let target = locate_branch_snippet(
        &[
            assistant_markdown_cell(
                "That point is about deciding things like:\n- whether prompts, uploads, and outputs are stored\n- who can access them internally",
            ),
            separator_cell(),
            assistant_markdown_cell("unrelated second response"),
        ],
        None,
        Some("unrelated second response"),
        "- whether prompts, uploads, and outputs are stored",
        &render,
    )
    .expect("snippet should match the older anchored response");

    assert_eq!(
        target.snapshot,
        ThreadForkSnapshot::AssistantReadAnchor {
            assistant_message_index: 0,
            source_line_index: 0,
            source_byte_offset: 91,
        }
    );
}

#[test]
fn matches_quoted_wrapped_bullet_snippet() {
    let target = locate_branch_snippet(
        &[assistant_markdown_cell(
            "My practical advice if you stay unregistered for now:\n\n- every legitimate business expense reduces your net business income\n- the business-use percentage matters for mixed-use items\n- subscriptions like QuickBooks, OpenAI, Anthropic, domain, hosting, Zoom, and design tools are exactly the kind of expenses worth tracking from day one",
        )],
        None,
        Some(
            "My practical advice if you stay unregistered for now:\n\n- every legitimate business expense reduces your net business income\n- the business-use percentage matters for mixed-use items\n- subscriptions like QuickBooks, OpenAI, Anthropic, domain, hosting, Zoom, and design tools are exactly the kind of expenses worth tracking from day one",
        ),
        "\" - the business-use percentage matters for mixed-use\n  items\"",
        &render,
    )
    .expect("quoted wrapped bullet snippet should match");

    assert_eq!(
        target.snapshot,
        ThreadForkSnapshot::LatestAssistantReadAnchor {
            source_line_index: 0,
            source_byte_offset: 180,
        }
    );
}

#[test]
fn keeps_numbered_list_branch_summaries_on_the_same_item_block() {
    let target = locate_branch_snippet(
        &[],
        None,
        Some(
            "10. What happens when something goes wrong?\n   Check support responsiveness, SLAs/priority tiers, status history, and whether you can fail over to another provider.\n11. Does it help sales, not just delivery?\n   Enterprise buyers often care more about contracts, logging, auditability, and regional controls than benchmark scores.\n12. Are you accidentally creating CASL/privacy exposure?\n   If you use AI for outbound emails/texts, consent and message compliance matter too.",
        ),
        "11. Does it help sales, not just delivery?\n   Enterprise buyers often care more about contracts, logging, auditability, and regional controls than\nbenchmark\nscores.",
        &render,
    )
    .expect("numbered list snippet should stay on the selected item block");

    assert_eq!(
        target.anchor_head_summary.as_deref(),
        Some("11. Does it help sales, not just delivery?")
    );
    assert_eq!(
        target.anchor_tail_summary.as_deref(),
        Some("and regional controls than benchmark scores.")
    );
}

#[test]
fn matches_wrapped_older_cell_snippet() {
    let target = locate_branch_snippet(
        &[
            assistant_markdown_cell(
                "If you want, I can give you a simple rule for deciding whether to book a software subscription as:\n\n1. fully business\n2. partially business\n3. not worth claiming",
            ),
            separator_cell(),
            assistant_markdown_cell("newer unrelated reply"),
        ],
        None,
        Some("newer unrelated reply"),
        " If you want, I can give you a simple rule for deciding whether to book a software\n  subscription as:\n\n  1. fully business\n  2. partially business\n  3. not worth claiming",
        &render,
    )
    .expect("wrapped replay snippet should match authoritative cell source");

    match target.snapshot {
        ThreadForkSnapshot::AssistantReadAnchor {
            assistant_message_index,
            source_line_index: _,
            source_byte_offset,
        } => {
            assert_eq!(assistant_message_index, 0);
            assert!(source_byte_offset > 0);
        }
        ThreadForkSnapshot::LatestAssistantReadAnchor {
            source_line_index: _,
            source_byte_offset,
        } => {
            assert!(source_byte_offset > 0);
        }
        other => panic!("expected assistant anchor, got {other:?}"),
    }
}

#[test]
fn blank_snippets_are_empty() {
    let cells = [assistant_markdown_cell("a reply")];
    for snippet in ["", "   ", " \n\t\n", "\u{a0}\u{2003}"] {
        assert_eq!(
            locate_branch_snippet(&cells, None, None, snippet, &render),
            Err(BranchSnippetError::EmptySnippet)
        );
    }
}

#[test]
fn an_empty_conversation_has_no_response() {
    for latest in [None, Some("  \n ")] {
        assert_eq!(
            locate_branch_snippet(&[separator_cell()], None, latest, "text", &render),
            Err(BranchSnippetError::NoAssistantResponse)
        );
        assert_eq!(
            locate_branch_snippet(&[], Some(&[turn(vec![])]), latest, "text", &render),
            Err(BranchSnippetError::NoAssistantResponse)
        );
    }
}

#[test]
fn a_match_without_markdown_has_no_anchor() {
    let cells = [
        message_cell("only displayed", true, None, None),
        separator_cell(),
        message_cell("something else", true, Some("something else"), None),
    ];
    assert_eq!(
        locate_branch_snippet(&cells, None, None, "only displayed", &render),
        Err(BranchSnippetError::NoAnchor)
    );
}

#[test]
fn a_snippet_that_one_reply_repeats_is_ambiguous() {
    let cells = [assistant_markdown_cell("same words, then the same words")];
    assert_eq!(
        locate_branch_snippet(&cells, None, None, "same words", &render),
        Err(BranchSnippetError::AmbiguousMatch)
    );
}

#[test]
fn anchors_name_the_segment_and_the_byte() {
    let first = "First paragraph.\n\nSecond ".to_string();
    let second = "paragraph.\n\nThird paragraph.".to_string();
    let whole = format!("{first}{second}");
    let turns = [
        turn(vec![agent_item(
            "shown",
            Some(&whole),
            Some(vec![first.clone(), second.clone()]),
        )]),
        turn(vec![
            ThreadItem::HookPrompt,
            agent_item("latest", None, None),
        ]),
    ];
    let target =
        locate_branch_snippet(&[], Some(&turns), None, "Second paragraph.", &render).unwrap();
    assert_eq!(
        target.snapshot,
        ThreadForkSnapshot::AssistantReadAnchor {
            assistant_message_index: 0,
            source_line_index: 1,
            source_byte_offset: 9,
        }
    );
    assert_eq!(target.origin_snapshot, target.snapshot);
    assert_eq!(target.selection_summary.as_deref(), Some("Second paragraph."));
}

#[test]
fn latest_fork_points_keep_the_index_as_their_origin() {
    let turns = [
        turn(vec![agent_item("one", None, None)]),
        turn(vec![agent_item("two\nthree", None, None)]),
    ];
    let target = locate_branch_snippet(&[], Some(&turns), None, "two", &render).unwrap();
    assert_eq!(
        target.snapshot,
        ThreadForkSnapshot::LatestAssistantReadAnchor {
            source_line_index: 0,
            source_byte_offset: 8,
        }
    );
    assert_eq!(
        target.origin_snapshot,
        ThreadForkSnapshot::AssistantReadAnchor {
            assistant_message_index: 1,
            source_line_index: 0,
            source_byte_offset: 8,
        }
    );
    assert_eq!(
        origin_snapshot_for_response(7, &ThreadForkSnapshot::Interrupted),
        ThreadForkSnapshot::Interrupted
    );
}

#[test]
fn a_response_of_turns_without_segments_has_no_anchor_unless_it_is_the_latest() {
    let turns = [
        turn(vec![agent_item("older reply", None, None)]),
        turn(vec![agent_item("newer reply", None, None)]),
    ];
    assert_eq!(
        locate_branch_snippet(&[], Some(&turns), None, "older reply", &render),
        Err(BranchSnippetError::NoAnchor)
    );
    assert!(locate_branch_snippet(&[], Some(&turns), None, "newer reply", &render).is_ok());
}

#[test]
fn wide_characters_before_a_match_do_not_move_it() {
    let source = "ééééé – ünïcödé\n\n- first item\n- second item\n\nlast line";
    let target = locate_branch_snippet(
        &[assistant_markdown_cell(source)],
        None,
        Some(source),
        "first item",
        &render,
    )
    .unwrap();
    let end = source.find("first item").unwrap() + "first item".len();
    assert_eq!(
        target.snapshot,
        ThreadForkSnapshot::LatestAssistantReadAnchor {
            source_line_index: 0,
            source_byte_offset: end as u32 - 1,
        }
    );
    assert_eq!(target.anchor_head_summary.as_deref(), Some("- first item"));
}

#[test]
fn emphasis_marks_do_not_hide_a_match() {
    assert_eq!(
        normalize_search_source_line("a **bold** __word__ and `code` *x* ***y***"),
        "a bold word and code *x* *y*"
    );
    let source = "Use **bold** and `code` here.";
    let target = locate_branch_snippet(
        &[],
        None,
        Some(source),
        "Use bold and code here.",
        &render,
    )
    .unwrap();
    assert_eq!(
        target.snapshot,
        ThreadForkSnapshot::LatestAssistantReadAnchor {
            source_line_index: 0,
            source_byte_offset: source.len() as u32 - 1,
        }
    );
}

#[test]
fn message_cells_that_continue_a_reply_are_one_response() {
    let cells = [
        message_cell("start", true, None, None),
        message_cell("middle", false, Some("start\nmiddle"), Some(strings(&["a"]))),
        message_cell("end", false, Some("start\nmiddle\nend"), None),
        message_cell("other", true, None, None),
        separator_cell(),
        message_cell("lost", false, None, None),
        assistant_markdown_cell("   "),
        assistant_markdown_cell("last"),
    ];
    let responses = assistant_responses_from_cells(&cells);
    assert_eq!(responses.len(), 4);
    assert_eq!(responses[0].display_lines, strings(&["start", "middle", "end"]));
    assert_eq!(responses[0].source_text.as_deref(), Some("start\nmiddle\nend"));
    assert_eq!(responses[0].source_segments, Some(strings(&["a"])));
    assert_eq!(responses[1].display_lines, strings(&["other"]));
    assert_eq!(responses[1].source_text, None);
    assert_eq!(responses[2].display_lines, strings(&["lost"]));
    assert_eq!(responses[3].source_text.as_deref(), Some("last"));
    for (index, response) in responses.iter().enumerate() {
        assert_eq!(response.assistant_message_index, index);
        assert!(response.allow_single_segment_fallback);
    }
}

#[test]
fn turns_give_one_response_per_assistant_message() {
    let responses = assistant_responses_from_turns(
        &[
            turn(vec![
                agent_item("shown one", Some("source one"), None),
                ThreadItem::ContextCompaction,
            ]),
            turn(vec![agent_item("shown\ntwo", None, Some(strings(&["x"])))]),
        ],
        &render,
    );
    assert_eq!(responses.len(), 2);
    assert_eq!(responses[0].display_lines, strings(&["source one"]));
    assert_eq!(responses[0].source_text.as_deref(), Some("source one"));
    assert_eq!(responses[1].assistant_message_index, 1);
    assert_eq!(responses[1].display_lines, strings(&["shown", "two"]));
    assert_eq!(responses[1].source_text.as_deref(), Some("shown\ntwo"));
    assert_eq!(responses[1].source_segments, Some(strings(&["x"])));
    assert!(!responses[1].allow_single_segment_fallback);
}

#[test]
fn normalized_text_maps_characters_to_their_places() {
    let normalized = NormalizedText::new(&strings(&["  é b ", "", " c"]));
    assert_eq!(normalized.text, "é b c");
    assert_eq!(
        normalized.mapping,
        vec![(0, 2), (0, 4), (0, 5), (0, 6), (2, 1)]
    );
    assert_eq!(NormalizedText::new(&[]).text, "");
    assert_eq!(NormalizedText::new(&strings(&[" ", "\t"])).text, "");
}

#[test]
fn candidates_strip_bullets_and_quotes() {
    let texts = |snippet: &str| -> Vec<String> {
        normalized_snippet_candidates(snippet)
            .into_iter()
            .map(|candidate| candidate.text)
            .collect()
    };
    assert_eq!(texts("plain  text"), strings(&["plain text"]));
    assert_eq!(texts(" • reply\r\nnext"), strings(&["• reply next", "reply next"]));
    assert_eq!(
        texts("\u{201C}• quoted\u{201D}"),
        strings(&["\u{201C}• quoted\u{201D}", "• quoted", "quoted"])
    );
    assert_eq!(strip_main_view_assistant_chrome("\t •  text"), "text");
    assert_eq!(strip_main_view_assistant_chrome("  text"), "  text");
    assert_eq!(strip_surrounding_quotes(" 'a b' ").as_deref(), Some("a b"));
    assert_eq!(strip_surrounding_quotes("\u{2018}x\u{2019}").as_deref(), Some("x"));
    assert_eq!(strip_surrounding_quotes("\"\u{201D}"), None);
    assert_eq!(strip_surrounding_quotes("\"  \""), None);
    assert_eq!(strip_surrounding_quotes("\""), None);
}

#[test]
fn unique_matches_are_byte_ranges() {
    assert_eq!(find_unique_match("éa b", "a"), Ok(2..3));
    assert_eq!(
        find_unique_match("abab", "ab"),
        Err(BranchSnippetError::AmbiguousMatch)
    );
    // Only what starts behind the first match makes it ambiguous.
    assert_eq!(find_unique_match("aaa", "aa"), Ok(0..2));
    assert_eq!(find_unique_match("abc", "x"), Err(BranchSnippetError::NoMatch));
    assert_eq!(
        find_unique_match("abc", ""),
        Err(BranchSnippetError::AmbiguousMatch)
    );
}

#[test]
fn structures_are_items_and_paragraphs() {
    let lines = strings(&[
        "intro", "more", "", "- item", "  continued", "12) next", "", "tail",
    ]);
    let spans: Vec<(usize, usize)> = (0..lines.len())
        .map(|index| {
            let start = structure_start_line(&lines, index);
            (start, structure_end_line(&lines, start))
        })
        .collect();
    assert_eq!(
        spans,
        vec![
            (0, 1),
            (0, 1),
            (2, 2),
            (3, 4),
            (3, 4),
            (5, 5),
            (6, 6),
            (7, 7)
        ]
    );
    assert!(is_list_item_start("  * x"));
    assert!(is_list_item_start("3.\tx"));
    assert!(is_list_item_start(". x"));
    assert!(!is_list_item_start("3.x"));
    assert!(!is_list_item_start("a. x"));
    assert!(!is_list_item_start("-x"));
}

#[test]
fn summaries_take_words_from_either_end() {
    let lines = strings(&["one two three four five six seven eight nine", "", "é x"]);
    assert_eq!(
        branch_anchor_head_summary(&lines, 0).as_deref(),
        Some("one two three four five six seven eight")
    );
    assert_eq!(branch_anchor_head_summary(&lines, 1), None);
    assert_eq!(branch_anchor_head_summary(&lines, 9), None);
    assert_eq!(
        branch_anchor_tail_summary(&lines, 0, 6).as_deref(),
        Some("one two")
    );
    assert_eq!(
        branch_anchor_tail_summary(&lines, 0, 1000).as_deref(),
        Some("four five six seven eight nine")
    );
    assert_eq!(branch_anchor_tail_summary(&lines, 2, 0).as_deref(), Some("é"));
    assert_eq!(
        branch_anchor_selection_summary(&normalized_snippet_candidates(" a \n b ")).as_deref(),
        Some("a b")
    );
    assert_eq!(branch_anchor_selection_summary(&[]), None);
}

#[test]
fn boundaries_surround_the_covered_character() {
    let text = "aé€😀";
    let starts = [0, 1, 1, 3, 3, 3, 6, 6, 6, 6, 10, 10];
    let ends = [1, 3, 3, 6, 6, 6, 10, 10, 10, 10, 10, 10];
    for offset in 0..starts.len() {
        assert_eq!(previous_char_boundary(text, offset), starts[offset]);
        assert_eq!(next_char_boundary(text, offset), ends[offset]);
    }
}

#[test]
fn anchors_point_at_the_last_character_of_a_line() {
    let text = "ab\ncdé\n";
    let lines = strings(&["ab", "cdé", ""]);
    assert_eq!(inclusive_line_end_anchor(text, &lines, 0), Some(1));
    assert_eq!(inclusive_line_end_anchor(text, &lines, 1), Some(5));
    assert_eq!(inclusive_line_end_anchor(text, &lines, 2), None);
    assert_eq!(inclusive_line_end_anchor(text, &lines, 3), None);
    assert_eq!(inclusive_line_end_anchor("a", &lines, 1), None);
    let segments = strings(&["ab", "", "cd"]);
    let found: Vec<Option<(usize, usize)>> = (0..5)
        .map(|offset| segment_local_anchor(&segments, offset))
        .collect();
    assert_eq!(
        found,
        vec![
            Some((0, 0)),
            Some((0, 1)),
            Some((2, 0)),
            Some((2, 1)),
            None
        ]
    );
    assert_eq!(
        snapshot_from_display_line_index("ab\ncd", Some(&segments), 3, 9, false, false),
        None
    );
    assert_eq!(
        snapshot_from_display_line_index("ab\nc", Some(&segments), 3, 9, false, false),
        Some(ThreadForkSnapshot::AssistantReadAnchor {
            assistant_message_index: 3,
            source_line_index: 2,
            source_byte_offset: 1,
        })
    );
}

#[test]
fn a_markdown_text_alone_is_the_latest_response() {
    let snippets = normalized_snippet_candidates("second");
    let target = locate_in_latest_markdown_only("first\n\nsecond one\nstill", &snippets).unwrap();
    assert_eq!(
        target.snapshot,
        ThreadForkSnapshot::LatestAssistantReadAnchor {
            source_line_index: 0,
            source_byte_offset: 22,
        }
    );
    assert_eq!(target.origin_snapshot, target.snapshot);
    assert_eq!(
        locate_in_latest_markdown_only("first", &snippets),
        Err(BranchSnippetError::NoMatch)
    );
}

#[test]
fn a_snippet_of_two_replies_is_ambiguous_without_an_anchor_too() {
    let bare = || message_cell("repeat this", true, None, None);
    let anchored = || assistant_markdown_cell("repeat this");
    for cells in [
        [bare(), anchored()],
        [anchored(), bare()],
        [bare(), bare()],
        [anchored(), anchored()],
    ] {
        assert_eq!(
            locate_branch_snippet(&cells, None, None, "repeat this", &render),
            Err(BranchSnippetError::AmbiguousMatch)
        );
    }
    let cells = [bare(), assistant_markdown_cell("something else")];
    assert_eq!(
        locate_branch_snippet(&cells, None, None, "repeat this", &render),
        Err(BranchSnippetError::NoAnchor)
    );
    assert!(locate_branch_snippet(&cells, None, None, "something", &render).is_ok());
}
