use reply_branching::branch_list::{
    show_branch_info, start_branch_info, start_branch_list, BranchListAction,
};
use reply_branching::branch_navigator::{
    branch_anchor_label, branch_info_lines, branch_navigator_name,
    branch_navigator_selection_params, branch_relation_glyph, branch_role_label,
    format_compact_updated, normalize_branch_navigator_rows, BranchNavigatorRole,
    BranchNavigatorRow, BranchNavigatorSelectionKind,
};
use reply_branching::styled::{line_plain_text, Line, Style};
use reply_branching::threads::{Thread, ThreadId, ThreadPage, ThreadSortKey, ThreadSourceKind, child_thread_list_params, parent_thread_id};

fn thread_fixture(
    id: &str,
    forked_from_id: Option<&str>,
    branch_depth: Option<u32>,
    branch_anchor_summary: Option<&str>,
    updated_at: i64,
) -> Thread {
    Thread {
        id: id.to_string(),
        thread_id: Some(ThreadId::of_text(id)),
        forked_from_id: forked_from_id.map(ToString::to_string),
        forked_from_thread_id: forked_from_id.map(ThreadId::of_text),
        branch_depth,
        branch_anchor_summary: branch_anchor_summary.map(ToString::to_string),
        branch_anchor_head_summary: None,
        branch_anchor_tail_summary: None,
        branch_origin_snapshot: None,
        updated_at,
    }
}

fn branch_info_snapshot(lines: &[Line]) -> String {
    lines
        .iter()
        .map(line_plain_text)
        .collect::<Vec<_>>()
        .join("\n")
}

fn truncate_text(text: &str, max_graphemes: usize) -> String {
    text.chars().take(max_graphemes).collect()
}

fn row(id: &str, depth: Option<u32>, role: BranchNavigatorRole) -> BranchNavigatorRow {
    BranchNavigatorRow {
        thread_id: ThreadId::of_text(id),
        depth,
        role,
        anchor_summary: None,
        updated_at: None,
    }
}

#[test]
fn branch_info_snapshot_for_child_thread() {
    let current_thread_id = ThreadId::of_text("019db89d-d85a-7901-bd8a-fef676f33457");
    let thread = thread_fixture(
        "019db89d-d85a-7901-bd8a-fef676f33457",
        Some("019db6ce-e9be-7d22-bf8a-3953cfd20e6a"),
        Some(5),
        Some("your case"),
        1_000_000,
    );

    assert_eq!(
        branch_info_snapshot(&branch_info_lines(&current_thread_id, &thread)),
        "branch depth: 5\nanchor: \"...your case\"\nparent: 019db6ce-e9be-7d22-bf8a-3953cfd20e6a\ncurrent: 019db89d-d85a-7901-bd8a-fef676f33457"
    );
}

#[test]
fn branch_info_not_in_branch() {
    let current_thread_id = ThreadId::of_text("019db89d-d85a-7901-bd8a-fef676f33457");
    let thread = thread_fixture(
        "019db89d-d85a-7901-bd8a-fef676f33457",
        None,
        Some(0),
        None,
        1_000_000,
    );

    assert_eq!(
        branch_info_snapshot(&branch_info_lines(&current_thread_id, &thread)),
        "This conversation is not currently in a branch.\ncurrent: 019db89d-d85a-7901-bd8a-fef676f33457"
    );
}

#[test]
fn branch_info_without_anchor_and_parent() {
    let id = ThreadId::of_text("id");
    let mut thread = thread_fixture("id", Some("not an id"), Some(2), Some("  "), 0);
    thread.forked_from_thread_id = None;
    assert_eq!(parent_thread_id(&thread), None);
    assert_eq!(
        branch_info_snapshot(&branch_info_lines(&id, &thread)),
        "branch depth: 2\nanchor: unavailable\nparent: unavailable\ncurrent: id"
    );
}

#[test]
fn branch_info_is_shown_or_refused() {
    let id = ThreadId::of_text("id");
    assert_eq!(start_branch_info(Some(&id)), Ok(id.clone()));
    assert_eq!(
        start_branch_info(None),
        Err("Branch info is unavailable before the current conversation has started.".to_string())
    );
    assert_eq!(
        show_branch_info(&id, Err("gone".to_string())).unwrap_err(),
        "Failed to load branch info: gone"
    );
    let lines = show_branch_info(&id, Ok(thread_fixture("id", None, None, None, 0))).unwrap();
    assert_eq!(lines.len(), 2);
}

#[test]
fn normalize_branch_navigator_rows_labels_relative_roles_and_depths() {
    let mut rows = vec![
        row("a", None, BranchNavigatorRole::Ancestor),
        row("b", None, BranchNavigatorRole::Ancestor),
        row("c", Some(2), BranchNavigatorRole::Current),
        row("d", None, BranchNavigatorRole::Child),
        row("e", Some(42), BranchNavigatorRole::Child),
    ];

    normalize_branch_navigator_rows(&mut rows, /*current_row_index*/ 2);

    let roles_and_depths: Vec<_> = rows.iter().map(|row| (row.role, row.depth)).collect();
    assert_eq!(
        roles_and_depths,
        vec![
            (BranchNavigatorRole::Main, Some(0)),
            (BranchNavigatorRole::Parent, Some(1)),
            (BranchNavigatorRole::Current, Some(2)),
            (BranchNavigatorRole::Child, Some(3)),
            (BranchNavigatorRole::Child, Some(3)),
        ]
    );
    let once = rows.clone();
    normalize_branch_navigator_rows(&mut rows, 2);
    assert_eq!(rows, once);
}

#[test]
fn normalized_depths_stop_at_the_ends() {
    let mut rows = vec![
        row("a", None, BranchNavigatorRole::Child),
        row("b", None, BranchNavigatorRole::Child),
        row("c", None, BranchNavigatorRole::Child),
        row("d", Some(1), BranchNavigatorRole::Child),
    ];
    normalize_branch_navigator_rows(&mut rows, 3);
    let depths: Vec<_> = rows.iter().map(|row| row.depth).collect();
    assert_eq!(depths, vec![Some(0), Some(0), Some(0), Some(1)]);
    assert_eq!(rows[1].role, BranchNavigatorRole::Ancestor);
    let mut rows = vec![
        row("a", Some(u32::MAX), BranchNavigatorRole::Child),
        row("b", None, BranchNavigatorRole::Main),
    ];
    normalize_branch_navigator_rows(&mut rows, 0);
    assert_eq!(rows[0].role, BranchNavigatorRole::Current);
    assert_eq!(rows[1].depth, Some(u32::MAX));
    let mut rows = vec![row("a", None, BranchNavigatorRole::Child)];
    normalize_branch_navigator_rows(&mut rows, 0);
    assert_eq!(rows[0].depth, Some(0));
}

#[test]
fn branch_anchor_label_uses_root_for_main() {
    assert_eq!(
        branch_anchor_label(BranchNavigatorRole::Main, Some("ignored"), &truncate_text),
        "root"
    );
}

#[test]
fn branch_anchor_label_uses_anchor_summary() {
    assert_eq!(
        branch_anchor_label(BranchNavigatorRole::Child, Some("your case"), &truncate_text),
        "\"...your case\""
    );
}

#[test]
fn branch_anchor_label_falls_back_to_selected_point() {
    assert_eq!(
        branch_anchor_label(BranchNavigatorRole::Child, None, &truncate_text),
        "\"selected point\""
    );
}

#[test]
fn branch_anchor_labels_are_trimmed_and_truncated() {
    let long = format!("  {}  ", "x".repeat(80));
    assert_eq!(
        branch_anchor_label(BranchNavigatorRole::Parent, Some(&long), &truncate_text),
        format!("\"...{}\"", "x".repeat(64))
    );
    assert_eq!(
        branch_anchor_label(BranchNavigatorRole::Parent, Some(" \n"), &truncate_text),
        "\"selected point\""
    );
}

#[test]
fn branch_relation_glyphs_are_compact() {
    assert_eq!(branch_relation_glyph(BranchNavigatorRole::Main), "•");
    assert_eq!(branch_relation_glyph(BranchNavigatorRole::Parent), "↑");
    assert_eq!(branch_relation_glyph(BranchNavigatorRole::Current), "→");
    assert_eq!(branch_relation_glyph(BranchNavigatorRole::Child), "⎇");
}

#[test]
fn every_role_has_a_label_and_a_glyph() {
    assert_eq!(branch_relation_glyph(BranchNavigatorRole::Ancestor), "↑");
    assert_eq!(branch_role_label(BranchNavigatorRole::Main), "main");
    assert_eq!(branch_role_label(BranchNavigatorRole::Ancestor), "ancestor");
    assert_eq!(branch_role_label(BranchNavigatorRole::Parent), "parent");
    assert_eq!(branch_role_label(BranchNavigatorRole::Current), "current");
    assert_eq!(branch_role_label(BranchNavigatorRole::Child), "child");
}

#[test]
fn format_compact_updated_uses_short_units() {
    let now = 1_000_000;
    assert_eq!(format_compact_updated(Some(now), now), "now");
    assert_eq!(format_compact_updated(Some(now - 42), now), "42s");
    assert_eq!(format_compact_updated(Some(now - 120), now), "2m");
    assert_eq!(format_compact_updated(Some(now - 7_200), now), "2h");
    assert_eq!(format_compact_updated(Some(now - 172_800), now), "2d");
    assert_eq!(format_compact_updated(None, now), "-");
}

#[test]
fn ages_change_their_unit_at_its_length() {
    let now = 1_000_000;
    assert_eq!(format_compact_updated(Some(now + 10), now), "now");
    assert_eq!(format_compact_updated(Some(now - 4), now), "now");
    assert_eq!(format_compact_updated(Some(now - 5), now), "5s");
    assert_eq!(format_compact_updated(Some(now - 59), now), "59s");
    assert_eq!(format_compact_updated(Some(now - 60), now), "1m");
    assert_eq!(format_compact_updated(Some(now - 3_599), now), "59m");
    assert_eq!(format_compact_updated(Some(now - 3_600), now), "1h");
    assert_eq!(format_compact_updated(Some(now - 86_399), now), "23h");
    assert_eq!(format_compact_updated(Some(now - 86_400), now), "1d");
    assert_eq!(
        format_compact_updated(Some(i64::MIN), i64::MAX),
        format!("{}d", i64::MAX / 86_400)
    );
    assert_eq!(format_compact_updated(Some(i64::MAX), i64::MIN), "now");
}

#[test]
fn branch_navigator_name_uses_full_thread_id() {
    let thread_id = "019db0d3-dd1e-71b1-a5d9-5248aaf2d19d";
    assert_eq!(
        branch_navigator_name(
            3,
            BranchNavigatorRole::Current,
            Some(1_000_000 - 240),
            1_000_000,
            thread_id
        ),
        "d3 → · 4m · 019db0d3-dd1e-71b1-a5d9-5248aaf2d19d"
    );
}

#[test]
fn branch_navigator_action_marks_ancestor_navigation_as_return() {
    let thread_id = ThreadId::of_text("019db89d-d85a-7901-bd8a-fef676f33457");
    let params = branch_navigator_selection_params(
        &[BranchNavigatorRow {
            thread_id: thread_id.clone(),
            depth: Some(0),
            role: BranchNavigatorRole::Main,
            anchor_summary: None,
            updated_at: None,
        }],
        /*current_row_index*/ 0,
        1_000_000,
        Line::of_text("hint", Style::plain()),
        &truncate_text,
    );
    let event = &params.items[0].action;

    assert!(matches!(
        event.kind,
        BranchNavigatorSelectionKind::ReturnToAncestor
    ));
    assert_eq!(event.thread_id, thread_id);
}

#[test]
fn selection_views_hold_all_rows() {
    let mut rows = vec![
        row("main", Some(0), BranchNavigatorRole::Main),
        row("child", Some(1), BranchNavigatorRole::Child),
    ];
    rows[1].anchor_summary = Some(" here ".to_string());
    rows[1].updated_at = Some(40);
    let hint = Line::of_text("hint", Style::plain());
    let params = branch_navigator_selection_params(&rows, 1, 100, hint.clone(), &truncate_text);
    assert_eq!(params.title.as_deref(), Some("Branch navigator"));
    assert_eq!(
        params.subtitle.as_deref(),
        Some("Flat branch list for the current conversation")
    );
    assert_eq!(params.footer_hint, Some(hint));
    assert_eq!(params.initial_selected_idx, Some(1));
    assert_eq!(params.items.len(), 2);
    let item = &params.items[1];
    assert_eq!(item.name, "d1 ⎇ · 1m · child");
    assert_eq!(item.description.as_deref(), Some("\"...here\""));
    assert_eq!(
        item.search_value.as_deref(),
        Some("d1 ⎇ · 1m · child child \"...here\"")
    );
    assert!(item.dismiss_on_select);
    assert_eq!(
        item.action.kind,
        BranchNavigatorSelectionKind::OpenCurrentOrDescendant
    );
}

#[test]
fn branch_lists_load_ancestors_and_children() {
    let id = ThreadId::of_text("current");
    let (mut list, action) = start_branch_list(Some(&id)).unwrap();
    assert_eq!(action, BranchListAction::ReadThread(id));
    let action = list.on_thread(Ok(thread_fixture(
        "current",
        Some("parent"),
        Some(2),
        Some("anchor"),
        5,
    )));
    assert_eq!(
        action,
        BranchListAction::ReadThread(ThreadId::of_text("parent"))
    );
    let action = list.on_thread(Ok(thread_fixture("parent", Some("root"), None, None, 4)));
    assert_eq!(
        action,
        BranchListAction::ReadThread(ThreadId::of_text("root"))
    );
    // A thread that is its own ancestor ends the walk.
    let action = list.on_thread(Ok(thread_fixture("root", Some("parent"), None, None, 3)));
    let params = match action {
        BranchListAction::ListThreads(params) => params,
        other => panic!("expected a page to be listed, got {other:?}"),
    };
    assert_eq!(params, child_thread_list_params(None));
    assert_eq!(params.limit, Some(100));
    assert_eq!(params.sort_key, Some(ThreadSortKey::UpdatedAt));
    assert_eq!(
        params.source_kinds,
        Some(vec![ThreadSourceKind::Cli, ThreadSourceKind::VsCode])
    );
    assert_eq!(params.archived, Some(false));
    let mut nameless = thread_fixture("??", Some("current"), None, None, 1);
    nameless.thread_id = None;
    let action = list.on_page(Ok(ThreadPage {
        data: vec![
            thread_fixture("child", Some("current"), None, None, 9),
            thread_fixture("stranger", Some("parent"), None, None, 8),
            nameless,
        ],
        next_cursor: Some("more".to_string()),
    }));
    assert_eq!(
        action,
        BranchListAction::ListThreads(child_thread_list_params(Some("more".to_string())))
    );
    let action = list.on_page(Ok(ThreadPage {
        data: vec![thread_fixture("second", Some("current"), None, None, 7)],
        next_cursor: None,
    }));
    let (rows, current_row_index) = match action {
        BranchListAction::ShowSelection {
            rows,
            current_row_index,
        } => (rows, current_row_index),
        other => panic!("expected the list to be shown, got {other:?}"),
    };
    assert_eq!(current_row_index, 2);
    let shown: Vec<_> = rows
        .iter()
        .map(|row| (row.thread_id.as_text().to_string(), row.role, row.depth))
        .collect();
    assert_eq!(
        shown,
        vec![
            ("root".to_string(), BranchNavigatorRole::Main, Some(0)),
            ("parent".to_string(), BranchNavigatorRole::Parent, Some(1)),
            ("current".to_string(), BranchNavigatorRole::Current, Some(2)),
            ("child".to_string(), BranchNavigatorRole::Child, Some(3)),
            ("second".to_string(), BranchNavigatorRole::Child, Some(3)),
        ]
    );
    assert_eq!(rows[2].anchor_summary.as_deref(), Some("anchor"));
    assert_eq!(rows[3].updated_at, Some(9));
}

#[test]
fn branch_lists_tell_what_failed() {
    assert_eq!(
        start_branch_list(None).unwrap_err(),
        "Branch list is unavailable before the current conversation has started."
    );
    let id = ThreadId::of_text("current");
    let start = || start_branch_list(Some(&id)).unwrap().0;
    let mut list = start();
    assert_eq!(
        list.on_thread(Err("down".to_string())),
        BranchListAction::ShowError("Failed to load current branch: down".to_string())
    );
    let mut list = start();
    list.on_thread(Ok(thread_fixture("current", Some("parent"), None, None, 0)));
    assert_eq!(
        list.on_thread(Err("down".to_string())),
        BranchListAction::ShowError("Failed to load branch ancestry: down".to_string())
    );
    let mut list = start();
    list.on_thread(Ok(thread_fixture("current", None, None, None, 0)));
    assert_eq!(
        list.on_page(Err("down".to_string())),
        BranchListAction::ShowError("Failed to list branches: down".to_string())
    );
}
