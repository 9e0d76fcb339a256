//! The branch navigator: the ancestors of a thread, the thread itself and its children as
//! one list.
use crate::strings;
use crate::strings::{copy_optional, is_blank, push_decimal, trim};
use crate::styled;
use crate::styled::{Line, Span, Style};
use crate::threads;
use crate::threads::{parent_thread_id, Thread, ThreadId};
use vstd::prelude::*;
use vstd::string::*;

verus! {

/// The greatest number of graphemes of an anchor in the navigator.
pub const ANCHOR_LABEL_GRAPHEMES: usize = 64;

/// How a thread is related to the current one.
#[derive(Clone, Copy, Debug, PartialEq, Eq, Structural)]
pub enum BranchNavigatorRole {
    Main,
    Ancestor,
    Parent,
    Current,
    Child,
}

/// A row of the navigator.
#[derive(Clone, Debug, PartialEq, Eq)]
pub struct BranchNavigatorRow {
    pub thread_id: ThreadId,
    pub depth: Option<u32>,
    pub role: BranchNavigatorRole,
    pub anchor_summary: Option<String>,
    pub updated_at: Option<i64>,
}

impl BranchNavigatorRow {
    /// A copy of this row.
    pub fn copy(&self) -> (row: BranchNavigatorRow)
        ensures
            row == *self,
    {
        BranchNavigatorRow {
            thread_id: self.thread_id.copy(),
            depth: self.depth,
            role: self.role,
            anchor_summary: copy_optional(&self.anchor_summary),
            updated_at: self.updated_at,
        }
    }
}

/// The row of a thread.
pub open spec fn row_of(
    thread_id: ThreadId,
    thread: Thread,
    role: BranchNavigatorRole,
) -> BranchNavigatorRow {
    BranchNavigatorRow {
        thread_id,
        depth: thread.branch_depth,
        role,
        anchor_summary: thread.branch_anchor_summary,
        updated_at: Some(thread.updated_at),
    }
}

/// The row of a thread.
pub fn branch_row(thread_id: ThreadId, thread: &Thread, role: BranchNavigatorRole) -> (row:
    BranchNavigatorRow)
    ensures
        row == row_of(thread_id, *thread, role),
{
    BranchNavigatorRow {
        thread_id,
        depth: thread.branch_depth,
        role,
        anchor_summary: copy_optional(&thread.branch_anchor_summary),
        updated_at: Some(thread.updated_at),
    }
}

/// The row of a child, where its identity is well-formed.
pub open spec fn child_row(thread: Thread) -> Option<BranchNavigatorRow> {
    match thread.thread_id {
        Some(thread_id) => Some(row_of(thread_id, thread, BranchNavigatorRole::Child)),
        None => None,
    }
}

/// The row of a child, where its identity is well-formed.
pub fn child_branch_row(thread: &Thread) -> (row: Option<BranchNavigatorRow>)
    ensures
        row == child_row(*thread),
{
    match &thread.thread_id {
        Some(thread_id) => Some(branch_row(thread_id.copy(), thread, BranchNavigatorRole::Child)),
        None => None,
    }
}

// ---------------------------------------------------------------------------
// Normalizing rows
// ---------------------------------------------------------------------------
/// The depth of the current row: its own, where it is known, and the number of rows before
/// it otherwise.
pub open spec fn current_depth(rows: Seq<BranchNavigatorRow>, current: int) -> int {
    if 0 <= current < rows.len() && rows[current].depth is Some {
        rows[current].depth->0 as int
    } else if current <= u32::MAX {
        current
    } else {
        u32::MAX as int
    }
}

/// The depth of a row, counted from the current one.
pub open spec fn normal_depth(index: int, current: int, depth: int) -> int {
    if index < current {
        if current - index <= depth {
            depth - (current - index)
        } else {
            0
        }
    } else if index == current {
        depth
    } else if depth < u32::MAX {
        depth + 1
    } else {
        depth
    }
}

/// The role of a row, by its place.
pub open spec fn normal_role(index: int, current: int) -> BranchNavigatorRole {
    if index < current {
        if index == 0 {
            BranchNavigatorRole::Main
        } else if index + 1 == current {
            BranchNavigatorRole::Parent
        } else {
            BranchNavigatorRole::Ancestor
        }
    } else if index == current {
        BranchNavigatorRole::Current
    } else {
        BranchNavigatorRole::Child
    }
}

/// A row with the depth and the role of its place.
pub open spec fn normal_row(
    rows: Seq<BranchNavigatorRow>,
    index: int,
    current: int,
) -> BranchNavigatorRow {
    BranchNavigatorRow {
        depth: Some(normal_depth(index, current, current_depth(rows, current)) as u32),
        role: normal_role(index, current),
        ..rows[index]
    }
}

/// The rows with the depths and the roles of their places.
pub open spec fn normal_rows(rows: Seq<BranchNavigatorRow>, current: int) -> Seq<
    BranchNavigatorRow,
> {
    Seq::new(rows.len(), |i: int| normal_row(rows, i, current))
}

/// Gives every row the depth and the role of its place.
pub fn normalize_branch_navigator_rows(
    rows: &mut Vec<BranchNavigatorRow>,
    current_row_index: usize,
)
    ensures
        final(rows)@ == normal_rows(old(rows)@, current_row_index as int),
{
    let ghost all = rows@;
    let fallback: u32 = if current_row_index <= u32::MAX as usize {
        current_row_index as u32
    } else {
        u32::MAX
    };
    let depth: u32 = if current_row_index < rows.len() {
        match rows[current_row_index].depth {
            Some(depth) => depth,
            None => fallback,
        }
    } else {
        fallback
    };
    let total: usize = rows.len();
    let mut index: usize = 0;
    while index < total
        invariant
            index <= total == all.len(),
            rows@.len() == total,
            depth == current_depth(all, current_row_index as int),
            forall|i: int|
                0 <= i < index ==> #[trigger] rows@[i] == normal_row(
                    all,
                    i,
                    current_row_index as int,
                ),
            forall|i: int| index <= i < total ==> #[trigger] rows@[i] == all[i],
        decreases total - index,
    {
        let row_depth: u32 = if index < current_row_index {
            let steps: usize = current_row_index - index;
            if steps <= depth as usize {
                depth - steps as u32
            } else {
                0
            }
        } else if index == current_row_index {
            depth
        } else {
            depth.saturating_add(1)
        };
        let role = if index < current_row_index {
            if index == 0 {
                BranchNavigatorRole::Main
            } else if index + 1 == current_row_index {
                BranchNavigatorRole::Parent
            } else {
                BranchNavigatorRole::Ancestor
            }
        } else if index == current_row_index {
            BranchNavigatorRole::Current
        } else {
            BranchNavigatorRole::Child
        };
        let mut row = rows[index].copy();
        row.depth = Some(row_depth);
        row.role = role;
        rows.set(index, row);
        index = index + 1;
    }
    assert(rows@ =~= normal_rows(all, current_row_index as int));
}

/// Normalizing rows keeps their threads, anchors and ages, gives exactly one row the role
/// of the current one, and changes nothing when it is done again.
pub proof fn law_normalizing_twice_is_normalizing_once(
    rows: Seq<BranchNavigatorRow>,
    current: int,
)
    requires
        0 <= current,
    ensures
        normal_rows(normal_rows(rows, current), current) == normal_rows(rows, current),
        forall|i: int|
            0 <= i < rows.len() ==> {
                &&& (#[trigger] normal_rows(rows, current)[i]).thread_id == rows[i].thread_id
                &&& normal_rows(rows, current)[i].anchor_summary == rows[i].anchor_summary
                &&& normal_rows(rows, current)[i].updated_at == rows[i].updated_at
                &&& normal_rows(rows, current)[i].role is Current <==> i == current
            },
{
    let once = normal_rows(rows, current);
    assert(current_depth(once, current) == current_depth(rows, current));
    assert(normal_rows(once, current) =~= once);
}

// ---------------------------------------------------------------------------
// Labels
// ---------------------------------------------------------------------------
/// The name of a role.
pub open spec fn role_name(role: BranchNavigatorRole) -> Seq<char> {
    match role {
        BranchNavigatorRole::Main => "main"@,
        BranchNavigatorRole::Ancestor => "ancestor"@,
        BranchNavigatorRole::Parent => "parent"@,
        BranchNavigatorRole::Current => "current"@,
        BranchNavigatorRole::Child => "child"@,
    }
}

/// The name of a role.
pub fn branch_role_label(role: BranchNavigatorRole) -> (label: &'static str)
    ensures
        label@ == role_name(role),
{
    match role {
        BranchNavigatorRole::Main => "main",
        BranchNavigatorRole::Ancestor => "ancestor",
        BranchNavigatorRole::Parent => "parent",
        BranchNavigatorRole::Current => "current",
        BranchNavigatorRole::Child => "child",
    }
}

/// The sign of a role.
pub open spec fn role_glyph(role: BranchNavigatorRole) -> Seq<char> {
    match role {
        BranchNavigatorRole::Main => "•"@,
        BranchNavigatorRole::Ancestor => "↑"@,
        BranchNavigatorRole::Parent => "↑"@,
        BranchNavigatorRole::Current => "→"@,
        BranchNavigatorRole::Child => "⎇"@,
    }
}

/// The sign of a role.
pub fn branch_relation_glyph(role: BranchNavigatorRole) -> (glyph: &'static str)
    ensures
        glyph@ == role_glyph(role),
{
    match role {
        BranchNavigatorRole::Main => "•",
        BranchNavigatorRole::Ancestor => "↑",
        BranchNavigatorRole::Parent => "↑",
        BranchNavigatorRole::Current => "→",
        BranchNavigatorRole::Child => "⎇",
    }
}

/// The number of seconds since a change; none since one to come.
pub open spec fn age(updated_at: int, now: int) -> int {
    if now <= updated_at {
        0
    } else if now - updated_at <= i64::MAX {
        now - updated_at
    } else {
        i64::MAX as int
    }
}

/// A number of seconds in its greatest unit.
pub open spec fn compact_age(secs: int) -> Seq<char> {
    if secs < 5 {
        "now"@
    } else if secs < 60 {
        strings::decimal(secs as nat) + "s"@
    } else if secs < 3600 {
        strings::decimal((secs / 60) as nat) + "m"@
    } else if secs < 86400 {
        strings::decimal((secs / 3600) as nat) + "h"@
    } else {
        strings::decimal((secs / 86400) as nat) + "d"@
    }
}

/// The time since a change, where it is known.
pub open spec fn compact_updated(updated_at: Option<i64>, now: i64) -> Seq<char> {
    match updated_at {
        Some(updated_at) => compact_age(age(updated_at as int, now as int)),
        None => "-"@,
    }
}

/// The time since a change, where it is known.
pub fn format_compact_updated(updated_at: Option<i64>, now: i64) -> (text: String)
    ensures
        text@ == compact_updated(updated_at, now),
{
    let updated_at: i64 = match updated_at {
        Some(updated_at) => updated_at,
        None => return "-".to_owned(),
    };
    let span: i128 = now as i128 - updated_at as i128;
    let secs: u64 = if span <= 0 {
        0
    } else if span <= i64::MAX as i128 {
        span as u64
    } else {
        i64::MAX as u64
    };
    if secs < 5 {
        return "now".to_owned();
    }
    let mut text = String::new();
    if secs < 60 {
        push_decimal(&mut text, secs);
        text.append("s");
    } else if secs < 3600 {
        push_decimal(&mut text, secs / 60);
        text.append("m");
    } else if secs < 86400 {
        push_decimal(&mut text, secs / 3600);
        text.append("h");
    } else {
        push_decimal(&mut text, secs / 86400);
        text.append("d");
    }
    assert(text@ =~= compact_updated(Some(updated_at), now));
    text
}

/// The first line of a row.
pub open spec fn row_name(
    depth: u32,
    role: BranchNavigatorRole,
    updated_at: Option<i64>,
    now: i64,
    thread_id: Seq<char>,
) -> Seq<char> {
    "d"@ + strings::decimal(depth as nat) + " "@ + role_glyph(role) + " · "@ + compact_updated(
        updated_at,
        now,
    ) + " · "@ + thread_id
}

/// The first line of a row.
pub fn branch_navigator_name(
    depth: u32,
    role: BranchNavigatorRole,
    updated_at: Option<i64>,
    now: i64,
    thread_id: &str,
) -> (name: String)
    ensures
        name@ == row_name(depth, role, updated_at, now, thread_id@),
{
    let relation = branch_relation_glyph(role);
    let updated = format_compact_updated(updated_at, now);
    let mut name = "d".to_owned();
    push_decimal(&mut name, depth as u64);
    name.append(" ");
    name.append(relation);
    name.append(" · ");
    name.append(updated.as_str());
    name.append(" · ");
    name.append(thread_id);
    name
}

/// The second line of a row: the anchor of its thread.
pub open spec fn anchor_label(
    role: BranchNavigatorRole,
    summary: Option<Seq<char>>,
    model: spec_fn(Seq<char>, int) -> Seq<char>,
) -> Seq<char> {
    if role is Main {
        "root"@
    } else {
        match summary {
            Some(summary) if !strings::blank(summary) => "\"..."@ + model(
                strings::trimmed(summary),
                ANCHOR_LABEL_GRAPHEMES as int,
            ) + "\""@,
            _ => "\"selected point\""@,
        }
    }
}

/// The second line of a row.
pub fn branch_anchor_label<T: Fn(&str, usize) -> String>(
    role: BranchNavigatorRole,
    anchor_summary: Option<&str>,
    truncate_text: &T,
) -> (label: String)
    requires
        styled::is_truncation(*truncate_text),
    ensures
        forall|model: spec_fn(Seq<char>, int) -> Seq<char>| #[trigger]
            styled::truncates_as(*truncate_text, model) ==> label@ == anchor_label(
                role,
                strings::opt_str(anchor_summary),
                model,
            ),
{
    if role == BranchNavigatorRole::Main {
        return "root".to_owned();
    }
    match anchor_summary {
        Some(summary) => if is_blank(summary) {
            "\"selected point\"".to_owned()
        } else {
            let trimmed = trim(summary);
            let truncated = truncate_text(trimmed.as_str(), ANCHOR_LABEL_GRAPHEMES);
            let mut label = "\"...".to_owned();
            label.append(truncated.as_str());
            label.append("\"");
            label
        },
        None => "\"selected point\"".to_owned(),
    }
}

// ---------------------------------------------------------------------------
// Branch info
// ---------------------------------------------------------------------------
/// An unstyled line of text.
pub open spec fn text_line(text: Seq<char>) -> styled::LineView {
    styled::LineView { spans: styled::raw_spans(text), style: styled::no_style() }
}

/// A line of a label and a value in cyan.
pub open spec fn labelled(label: Seq<char>, value: Seq<char>) -> styled::LineView {
    styled::LineView {
        spans: seq![
            styled::raw_span(label),
            styled::SpanView { content: value, style: styled::in_cyan(styled::no_style()) },
        ],
        style: styled::no_style(),
    }
}

/// The lines that tell where a thread stands among the branches.
pub open spec fn info_lines(current: Seq<char>, thread: Thread) -> Seq<styled::LineView> {
    let depth = match thread.branch_depth {
        Some(depth) => depth,
        None => 0,
    };
    if depth == 0 {
        seq![
            text_line("This conversation is not currently in a branch."@),
            labelled("current: "@, current),
        ]
    } else {
        seq![
            labelled("branch depth: "@, strings::decimal(depth as nat)),
            match thread.branch_anchor_summary {
                Some(summary) if !strings::blank(summary@) => labelled(
                    "anchor: "@,
                    "\"..."@ + strings::trimmed(summary@) + "\""@,
                ),
                _ => text_line("anchor: unavailable"@),
            },
            match threads::parent_of(thread) {
                Some(parent) => labelled("parent: "@, parent@),
                None => text_line("parent: unavailable"@),
            },
            labelled("current: "@, current),
        ]
    }
}

/// A line of a label and a value in cyan.
fn labelled_line(label: &str, value: &str) -> (line: Line)
    ensures
        line@ == labelled(label@, value@),
{
    let mut spans: Vec<Span> = Vec::new();
    spans.push(Span::raw(label));
    spans.push(Span::styled(value, Style::plain().cyan()));
    let line = Line::of_spans(spans, Style::plain());
    assert(line@.spans =~= labelled(label@, value@).spans);
    line
}

/// The lines that tell where a thread stands among the branches.
pub fn branch_info_lines(current_thread_id: &ThreadId, current_thread: &Thread) -> (lines: Vec<
    Line,
>)
    ensures
        styled::line_views(lines@) == info_lines(current_thread_id@, *current_thread),
{
    let branch_depth: u32 = match current_thread.branch_depth {
        Some(depth) => depth,
        None => 0,
    };
    let mut lines: Vec<Line> = Vec::new();
    if branch_depth == 0 {
        lines.push(
            Line::of_text("This conversation is not currently in a branch.", Style::plain()),
        );
        lines.push(labelled_line("current: ", current_thread_id.as_text()));
        assert(styled::line_views(lines@) =~= info_lines(current_thread_id@, *current_thread));
        return lines;
    }
    let mut depth = String::new();
    push_decimal(&mut depth, branch_depth as u64);
    assert(depth@ =~= strings::decimal(branch_depth as nat));
    lines.push(labelled_line("branch depth: ", depth.as_str()));
    let anchor_line = match &current_thread.branch_anchor_summary {
        Some(summary) => if is_blank(summary.as_str()) {
            Line::of_text("anchor: unavailable", Style::plain())
        } else {
            let trimmed = trim(summary.as_str());
            let mut quoted = "\"...".to_owned();
            quoted.append(trimmed.as_str());
            quoted.append("\"");
            labelled_line("anchor: ", quoted.as_str())
        },
        None => Line::of_text("anchor: unavailable", Style::plain()),
    };
    lines.push(anchor_line);
    let parent_line = match parent_thread_id(current_thread) {
        Some(parent) => labelled_line("parent: ", parent.as_text()),
        None => Line::of_text("parent: unavailable", Style::plain()),
    };
    lines.push(parent_line);
    lines.push(labelled_line("current: ", current_thread_id.as_text()));
    assert(styled::line_views(lines@) =~= info_lines(current_thread_id@, *current_thread));
    lines
}

// ---------------------------------------------------------------------------
// Selection
// ---------------------------------------------------------------------------
/// What selecting a row does.
#[derive(Clone, Copy, Debug, PartialEq, Eq, Structural)]
pub enum BranchNavigatorSelectionKind {
    ReturnToAncestor,
    OpenCurrentOrDescendant,
}

/// The event of selecting a row.
#[derive(Clone, Debug, PartialEq, Eq)]
pub struct SelectBranchNavigatorThread {
    pub thread_id: ThreadId,
    pub kind: BranchNavigatorSelectionKind,
}

/// An item of a selection view.
#[derive(Clone, Debug, PartialEq, Eq)]
pub struct SelectionItem {
    pub name: String,
    pub description: Option<String>,
    pub action: SelectBranchNavigatorThread,
    pub dismiss_on_select: bool,
    pub search_value: Option<String>,
}

/// A selection view.
#[derive(Clone, Debug, PartialEq, Eq)]
pub struct SelectionViewParams {
    pub title: Option<String>,
    pub subtitle: Option<String>,
    pub footer_hint: Option<Line>,
    pub items: Vec<SelectionItem>,
    pub initial_selected_idx: Option<usize>,
}

/// What selecting a row of a role does.
pub open spec fn selection_kind(role: BranchNavigatorRole) -> BranchNavigatorSelectionKind {
    match role {
        BranchNavigatorRole::Main => BranchNavigatorSelectionKind::ReturnToAncestor,
        BranchNavigatorRole::Ancestor => BranchNavigatorSelectionKind::ReturnToAncestor,
        BranchNavigatorRole::Parent => BranchNavigatorSelectionKind::ReturnToAncestor,
        BranchNavigatorRole::Current => BranchNavigatorSelectionKind::OpenCurrentOrDescendant,
        BranchNavigatorRole::Child => BranchNavigatorSelectionKind::OpenCurrentOrDescendant,
    }
}

/// Whether an item is that of a row.
pub open spec fn is_item_of(
    item: SelectionItem,
    row: BranchNavigatorRow,
    now: i64,
    model: spec_fn(Seq<char>, int) -> Seq<char>,
) -> bool {
    let depth = match row.depth {
        Some(depth) => depth,
        None => 0,
    };
    let anchor = anchor_label(row.role, strings::opt_text(row.anchor_summary), model);
    let name = row_name(depth, row.role, row.updated_at, now, row.thread_id@);
    &&& item.name@ == name
    &&& strings::opt_text(item.description) == Some(anchor)
    &&& item.action.thread_id@ == row.thread_id@
    &&& item.action.kind == selection_kind(row.role)
    &&& item.dismiss_on_select
    &&& strings::opt_text(item.search_value) == Some(
        name + " "@ + role_name(row.role) + " "@ + anchor,
    )
}

/// Whether items are those of rows.
pub open spec fn are_items_of(
    items: Seq<SelectionItem>,
    rows: Seq<BranchNavigatorRow>,
    now: i64,
    model: spec_fn(Seq<char>, int) -> Seq<char>,
) -> bool {
    &&& items.len() == rows.len()
    &&& forall|i: int| 0 <= i < items.len() ==> is_item_of(#[trigger] items[i], rows[i], now, model)
}

/// The item of a row.
fn selection_item<T: Fn(&str, usize) -> String>(
    row: &BranchNavigatorRow,
    now: i64,
    truncate_text: &T,
) -> (item: SelectionItem)
    requires
        styled::is_truncation(*truncate_text),
    ensures
        forall|model: spec_fn(Seq<char>, int) -> Seq<char>| #[trigger]
            styled::truncates_as(*truncate_text, model) ==> is_item_of(item, *row, now, model),
{
    let depth: u32 = match row.depth {
        Some(depth) => depth,
        None => 0,
    };
    let summary: Option<&str> = match &row.anchor_summary {
        Some(summary) => Some(summary.as_str()),
        None => None,
    };
    let anchor = branch_anchor_label(row.role, summary, truncate_text);
    let kind = match row.role {
        BranchNavigatorRole::Main => BranchNavigatorSelectionKind::ReturnToAncestor,
        BranchNavigatorRole::Ancestor => BranchNavigatorSelectionKind::ReturnToAncestor,
        BranchNavigatorRole::Parent => BranchNavigatorSelectionKind::ReturnToAncestor,
        BranchNavigatorRole::Current => BranchNavigatorSelectionKind::OpenCurrentOrDescendant,
        BranchNavigatorRole::Child => BranchNavigatorSelectionKind::OpenCurrentOrDescendant,
    };
    let name = branch_navigator_name(
        depth,
        row.role,
        row.updated_at,
        now,
        row.thread_id.as_text(),
    );
    let mut search_value = name.clone();
    search_value.append(" ");
    search_value.append(branch_role_label(row.role));
    search_value.append(" ");
    search_value.append(anchor.as_str());
    SelectionItem {
        name,
        description: Some(anchor),
        action: SelectBranchNavigatorThread { thread_id: row.thread_id.copy(), kind },
        dismiss_on_select: true,
        search_value: Some(search_value),
    }
}

/// The selection view of the navigator.
pub fn branch_navigator_selection_params<T: Fn(&str, usize) -> String>(
    rows: &[BranchNavigatorRow],
    current_row_index: usize,
    now: i64,
    footer_hint: Line,
    truncate_text: &T,
) -> (params: SelectionViewParams)
    requires
        styled::is_truncation(*truncate_text),
    ensures
        strings::opt_text(params.title) == Some("Branch navigator"@),
        strings::opt_text(params.subtitle) == Some(
            "Flat branch list for the current conversation"@,
        ),
        params.footer_hint == Some(footer_hint),
        params.initial_selected_idx == Some(current_row_index),
        forall|model: spec_fn(Seq<char>, int) -> Seq<char>| #[trigger]
            styled::truncates_as(*truncate_text, model) ==> are_items_of(
                params.items@,
                rows@,
                now,
                model,
            ),
{
    let mut items: Vec<SelectionItem> = Vec::new();
    let mut index: usize = 0;
    while index < rows.len()
        invariant
            index <= rows@.len(),
            styled::is_truncation(*truncate_text),
            items@.len() == index,
            forall|model: spec_fn(Seq<char>, int) -> Seq<char>| #[trigger]
                styled::truncates_as(*truncate_text, model) ==> are_items_of(
                    items@,
                    rows@.take(index as int),
                    now,
                    model,
                ),
        decreases rows@.len() - index,
    {
        let ghost before = items@;
        items.push(selection_item(&rows[index], now, truncate_text));
        proof {
            let taken = rows@.take(index as int + 1);
            assert forall|model: spec_fn(Seq<char>, int) -> Seq<char>| #[trigger]
                styled::truncates_as(*truncate_text, model) implies are_items_of(
                items@,
                taken,
                now,
                model,
            ) by {
                assert(are_items_of(before, rows@.take(index as int), now, model));
                assert forall|i: int| 0 <= i < items@.len() implies is_item_of(
                    #[trigger] items@[i],
                    taken[i],
                    now,
                    model,
                ) by {
                    if i < index {
                        assert(items@[i] == before[i]);
                        assert(taken[i] == rows@.take(index as int)[i]);
                    }
                }
            }
        }
        index = index + 1;
    }
    assert(rows@.take(rows@.len() as int) =~= rows@);
    SelectionViewParams {
        title: Some("Branch navigator".to_owned()),
        subtitle: Some("Flat branch list for the current conversation".to_owned()),
        footer_hint: Some(footer_hint),
        items,
        initial_selected_idx: Some(current_row_index),
    }
}

/// In the rows of a navigator, every row before the current one returns to an ancestor, and
/// the current row and every row behind it opens its thread.
pub proof fn law_rows_before_the_current_one_return(
    rows: Seq<BranchNavigatorRow>,
    current: int,
    i: int,
    items: Seq<SelectionItem>,
    now: i64,
    model: spec_fn(Seq<char>, int) -> Seq<char>,
)
    requires
        0 <= i < rows.len(),
        are_items_of(items, normal_rows(rows, current), now, model),
    ensures
        items.len() == rows.len(),
        items[i].action.thread_id@ == rows[i].thread_id@,
        i < current <==> items[i].action.kind == BranchNavigatorSelectionKind::ReturnToAncestor,
        i >= current <==> items[i].action.kind
            == BranchNavigatorSelectionKind::OpenCurrentOrDescendant,
{
    assert(is_item_of(items[i], normal_rows(rows, current)[i], now, model));
}

/// The current row keeps its depth, or has that of its place where it names none. Every row
/// before it is one level above the next, but never above the root, and every row behind it
/// one level below it.
pub proof fn law_depths_follow_the_current_row(
    rows: Seq<BranchNavigatorRow>,
    current: int,
    i: int,
)
    requires
        0 <= current < rows.len() <= u32::MAX,
        0 <= i < rows.len(),
    ensures
        ({
            let normal = normal_rows(rows, current);
            let depth = normal[current].depth->0;
            &&& normal.len() == rows.len()
            &&& normal[i].depth is Some
            &&& rows[current].depth matches Some(known) ==> depth == known
            &&& rows[current].depth is None ==> depth == current
            &&& i < current && depth >= current - i ==> normal[i].depth->0 + (current - i) == depth
            &&& i < current && depth < current - i ==> normal[i].depth->0 == 0
            &&& i > current && depth < u32::MAX ==> normal[i].depth->0 == depth + 1
            &&& i > current && depth == u32::MAX ==> normal[i].depth->0 == u32::MAX
        }),
{
}

/// The first of the rows before the current one is the main conversation, the one right
/// before it is its parent, and those in between are its ancestors; a first row right before
/// the current one is the main conversation. The rows behind it are its children.
pub proof fn law_roles_follow_the_current_row(
    rows: Seq<BranchNavigatorRow>,
    current: int,
    i: int,
)
    requires
        0 <= i < rows.len(),
    ensures
        ({
            let role = normal_rows(rows, current)[i].role;
            &&& role is Main <==> i == 0 && 0 < current
            &&& role is Parent <==> 0 < i && i == current - 1
            &&& role is Ancestor <==> 0 < i && i < current - 1
            &&& role is Current <==> i == current
            &&& role is Child <==> i > current
        }),
{
}

/// What an item shows of its row: its name starts with the depth and the sign of the role and
/// ends with the thread, its description is the anchor, and it can be searched by all of
/// these and the name of the role. Choosing it closes the list.
pub proof fn law_items_show_their_rows(
    item: SelectionItem,
    row: BranchNavigatorRow,
    now: i64,
    model: spec_fn(Seq<char>, int) -> Seq<char>,
)
    requires
        is_item_of(item, row, now, model),
    ensures
        ({
            let depth = match row.depth {
                Some(depth) => depth as nat,
                None => 0,
            };
            let sign = match row.role {
                BranchNavigatorRole::Main => "•"@,
                BranchNavigatorRole::Ancestor => "↑"@,
                BranchNavigatorRole::Parent => "↑"@,
                BranchNavigatorRole::Current => "→"@,
                BranchNavigatorRole::Child => "⎇"@,
            };
            let role = match row.role {
                BranchNavigatorRole::Main => "main"@,
                BranchNavigatorRole::Ancestor => "ancestor"@,
                BranchNavigatorRole::Parent => "parent"@,
                BranchNavigatorRole::Current => "current"@,
                BranchNavigatorRole::Child => "child"@,
            };
            let description = strings::opt_text(item.description)->0;
            &&& item.name@ == "d"@ + strings::decimal(depth) + " "@ + sign + " · "@
                + compact_updated(row.updated_at, now) + " · "@ + row.thread_id@
            &&& item.description is Some
            &&& row.role is Main ==> description == "root"@
            &&& !(row.role is Main) ==> match row.anchor_summary {
                Some(summary) => if strings::blank(summary@) {
                    description == "\"selected point\""@
                } else {
                    description == "\"..."@ + model(strings::trimmed(summary@), 64) + "\""@
                },
                None => description == "\"selected point\""@,
            }
            &&& strings::opt_text(item.search_value) == Some(
                item.name@ + " "@ + role + " "@ + description,
            )
            &&& item.dismiss_on_select
        }),
{
}

/// The age of a row is rounded down to its largest unit: below five seconds it is now, below
/// a minute it counts seconds, below an hour minutes, below a day hours, and days from then
/// on. A row of the future is now, and one without a time has no age.
pub proof fn law_ages_are_rounded_down(updated_at: i64, now: i64)
    ensures
        compact_updated(None, now) == "-"@,
        now - updated_at < 5 ==> compact_updated(Some(updated_at), now) == "now"@,
        5 <= now - updated_at < 60 ==> compact_updated(Some(updated_at), now) == strings::decimal(
            (now - updated_at) as nat,
        ) + "s"@,
        forall|count: nat|
            #![trigger strings::decimal(count)]
            60 <= now - updated_at < 3600 && 60 * count <= now - updated_at < 60 * (count + 1)
                ==> compact_updated(Some(updated_at), now) == strings::decimal(count) + "m"@,
        forall|count: nat|
            #![trigger strings::decimal(count)]
            3600 <= now - updated_at < 86400 && 3600 * count <= now - updated_at < 3600 * (count
                + 1) ==> compact_updated(Some(updated_at), now) == strings::decimal(count) + "h"@,
        forall|count: nat|
            #![trigger strings::decimal(count)]
            86400 <= now - updated_at <= i64::MAX && 86400 * count <= now - updated_at < 86400 * (
            count + 1) ==> compact_updated(Some(updated_at), now) == strings::decimal(count)
                + "d"@,
{
    let secs = now - updated_at;
    assert forall|count: nat|
        #![trigger strings::decimal(count)]
        60 * count <= secs < 60 * (count + 1) implies secs / 60 == count by {}
    assert forall|count: nat|
        #![trigger strings::decimal(count)]
        3600 * count <= secs < 3600 * (count + 1) implies secs / 3600 == count by {}
    assert forall|count: nat|
        #![trigger strings::decimal(count)]
        86400 * count <= secs < 86400 * (count + 1) implies secs / 86400 == count by {}
}

/// What is said of the current thread: outside of a branch only which thread it is, and
/// inside of one its depth, its anchor, its parent and itself, in this order.
pub proof fn law_branch_info_names_the_branch(current: Seq<char>, thread: Thread)
    ensures
        ({
            let lines = info_lines(current, thread);
            let inside = thread.branch_depth is Some && thread.branch_depth->0 > 0;
            &&& lines.last().spans[0].content == "current: "@
            &&& lines.last().spans[1].content == current
            &&& !inside ==> lines.len() == 2
            &&& inside ==> {
                &&& lines.len() == 4
                &&& lines[0].spans[0].content == "branch depth: "@
                &&& lines[0].spans[1].content == strings::decimal(thread.branch_depth->0 as nat)
                &&& thread.branch_anchor_summary is Some && !strings::blank(
                    thread.branch_anchor_summary->0@,
                ) ==> {
                    &&& lines[1].spans[0].content == "anchor: "@
                    &&& lines[1].spans[1].content == "\"..."@ + strings::trimmed(
                        thread.branch_anchor_summary->0@,
                    ) + "\""@
                }
                &&& thread.branch_anchor_summary is None || strings::blank(
                    thread.branch_anchor_summary->0@,
                ) ==> lines[1] == text_line("anchor: unavailable"@)
                &&& thread.forked_from_id is Some && thread.forked_from_thread_id is Some ==> {
                    &&& lines[2].spans[0].content == "parent: "@
                    &&& lines[2].spans[1].content == thread.forked_from_thread_id->0@
                }
                &&& thread.forked_from_id is None || thread.forked_from_thread_id is None
                    ==> lines[2] == text_line("parent: unavailable"@)
            }
        }),
{
}

/// The row of a thread is that of the thread itself, and only a thread whose name is known
/// is the row of a child.
pub proof fn law_rows_describe_their_threads(
    thread_id: ThreadId,
    thread: Thread,
    role: BranchNavigatorRole,
)
    ensures
        ({
            let row = row_of(thread_id, thread, role);
            &&& row.thread_id == thread_id
            &&& row.depth == thread.branch_depth
            &&& row.role == role
            &&& row.anchor_summary == thread.branch_anchor_summary
            &&& row.updated_at == Some(thread.updated_at)
        }),
        child_row(thread) is Some <==> thread.thread_id is Some,
        child_row(thread) matches Some(row) ==> {
            &&& Some(row.thread_id) == thread.thread_id
            &&& row.role is Child
            &&& row.depth == thread.branch_depth
            &&& row.anchor_summary == thread.branch_anchor_summary
            &&& row.updated_at == Some(thread.updated_at)
        },
{
}

} // verus!
