//! Starting a branch from a reply and returning from it: what follows each answer of the
//! server.
use crate::branch_chrome;
use crate::branch_chrome::{branch_state_body, branch_state_title, BranchStateNoticeKind};
use crate::branch_locator;
use crate::branch_locator::locate_branch_snippet;
use crate::branch_navigator::BranchNavigatorSelectionKind;
use crate::branch_notice;
use crate::history_cell;
use crate::history_cell::HistoryCell;
use crate::protocol::{ThreadForkSnapshot, Turn};
use crate::snippet::BranchSnippetError;
use crate::strings;
use crate::strings::copy_optional;
use crate::styled;
use crate::styled::{Line, Style};
use crate::threads::ThreadId;
use vstd::prelude::*;
use vstd::string::*;

verus! {

/// What a fork is told of the branch that it starts.
#[derive(Clone, Debug, PartialEq, Eq)]
pub struct BranchForkContext {
    pub snapshot: ThreadForkSnapshot,
    pub origin_snapshot: ThreadForkSnapshot,
    pub branch_depth: usize,
    pub selection_summary: Option<String>,
    pub anchor_head_summary: Option<String>,
    pub anchor_tail_summary: Option<String>,
}

/// What the chat widget knows of a branch that was entered, and the notice on it.
#[derive(Clone, Debug, PartialEq, Eq)]
pub struct EnteredBranch {
    pub branch_depth: usize,
    pub branch_anchor_selection_summary: Option<String>,
    pub branch_origin_snapshot: ThreadForkSnapshot,
    pub notice_lines: Vec<Line>,
}

/// A message about something that failed.
fn failure(message: &str, error: &str) -> (text: String)
    ensures
        text@ == message@ + error@,
{
    let mut text = message.to_owned();
    text.append(error);
    text
}

/// Texts as unstyled lines.
pub open spec fn plain_text_lines(content: Seq<Seq<char>>) -> Seq<styled::LineView> {
    Seq::new(content.len(), |i: int| branch_notice::text_line(content[i], styled::no_style()))
}

// ---------------------------------------------------------------------------
// Starting a branch
// ---------------------------------------------------------------------------
/// What the user is told of a snippet that gives no branch.
pub open spec fn snippet_complaint(error: BranchSnippetError) -> Seq<char> {
    match error {
        BranchSnippetError::EmptySnippet => "Snippet is empty. Usage: /branch-from <text>"@,
        BranchSnippetError::NoAssistantResponse => {
            "/branch-from requires at least one completed assistant response."@
        },
        BranchSnippetError::NoMatch => {
            "Snippet not found in any assistant response. Check the text and try again."@
        },
        BranchSnippetError::AmbiguousMatch => {
            "Snippet matches multiple assistant responses — provide more context to disambiguate."@
        },
        BranchSnippetError::NoAnchor => {
            "Cannot anchor this snippet to a source line. Try selecting a longer or more distinctive excerpt."@
        },
    }
}

/// What the user is told of a snippet that gives no branch.
pub fn snippet_error_message(error: BranchSnippetError) -> (message: &'static str)
    ensures
        message@ == snippet_complaint(error),
{
    match error {
        BranchSnippetError::EmptySnippet => "Snippet is empty. Usage: /branch-from <text>",
        BranchSnippetError::NoAssistantResponse => {
            "/branch-from requires at least one completed assistant response."
        },
        BranchSnippetError::NoMatch => {
            "Snippet not found in any assistant response. Check the text and try again."
        },
        BranchSnippetError::AmbiguousMatch => {
            "Snippet matches multiple assistant responses — provide more context to disambiguate."
        },
        BranchSnippetError::NoAnchor => {
            "Cannot anchor this snippet to a source line. Try selecting a longer or more distinctive excerpt."
        },
    }
}

/// The thread to read before a branch can be started; a complaint before the session has
/// started.
pub fn start_branch_from(thread_id: Option<&ThreadId>) -> (started: Result<ThreadId, String>)
    ensures
        match (thread_id, started) {
            (Some(thread_id), Ok(asked)) => asked == *thread_id,
            (None, Err(message)) => message@
                == "/branch-from is unavailable before the session starts."@,
            _ => false,
        },
{
    match thread_id {
        Some(thread_id) => Ok(thread_id.copy()),
        None => Err("/branch-from is unavailable before the session starts.".to_owned()),
    }
}

/// Whether a fork is told of a target, one level below a parent.
pub open spec fn is_fork_of(
    context: BranchForkContext,
    target: branch_locator::TargetView,
    parent_depth: int,
) -> bool {
    &&& context.snapshot == target.snapshot
    &&& context.origin_snapshot == target.origin_snapshot
    &&& context.branch_depth == parent_depth + 1
    &&& strings::opt_text(context.selection_summary) == target.selection_summary
    &&& strings::opt_text(context.anchor_head_summary) == target.anchor_head_summary
    &&& strings::opt_text(context.anchor_tail_summary) == target.anchor_tail_summary
}

/// Whether a fork, or the reason why there is none, follows from what was located.
pub open spec fn follows_from(
    fork: Result<BranchForkContext, String>,
    located: Result<branch_locator::TargetView, BranchSnippetError>,
    parent_depth: int,
) -> bool {
    match (fork, located) {
        (Ok(context), Ok(target)) => is_fork_of(context, target, parent_depth),
        (Err(message), Err(error)) => message@ == snippet_complaint(error),
        _ => false,
    }
}

/// The fork that starts a branch from a snippet, when the turns of the thread were read;
/// a complaint where they could not be read or the snippet gives no branch.
pub fn branch_fork_context<F: Fn(&str) -> Vec<Line>>(
    read: Result<&[Turn], &str>,
    cells: &[HistoryCell],
    latest_markdown: Option<&str>,
    snippet: &str,
    parent_branch_depth: usize,
    append_markdown: &F,
) -> (fork: Result<BranchForkContext, String>)
    requires
        styled::is_renderer(*append_markdown),
        parent_branch_depth < usize::MAX,
    ensures
        match read {
            Err(error) => fork matches Err(message) && message@
                == "Failed to inspect conversation history for /branch-from: "@ + error@,
            Ok(turns) => forall|model: spec_fn(Seq<char>) -> Seq<styled::LineView>| #[trigger]
                styled::renders_as(*append_markdown, model) ==> follows_from(
                    fork,
                    branch_locator::located(
                        history_cell::cell_views(cells@),
                        Some(turns@),
                        strings::opt_str(latest_markdown),
                        snippet@,
                        model,
                    ),
                    parent_branch_depth as int,
                ),
        },
{
    let turns = match read {
        Ok(turns) => turns,
        Err(error) => return Err(
            failure("Failed to inspect conversation history for /branch-from: ", error),
        ),
    };
    match locate_branch_snippet(cells, Some(turns), latest_markdown, snippet, append_markdown) {
        Err(error) => Err(snippet_error_message(error).to_owned()),
        Ok(target) => Ok(
            BranchForkContext {
                snapshot: target.snapshot,
                origin_snapshot: target.origin_snapshot,
                branch_depth: parent_branch_depth + 1,
                selection_summary: target.selection_summary,
                anchor_head_summary: target.anchor_head_summary,
                anchor_tail_summary: target.anchor_tail_summary,
            },
        ),
    }
}

/// What the user is told when the fork fails.
pub fn fork_failure_message(error: &str) -> (message: String)
    ensures
        message@ == "Failed to create branch thread: "@ + error@,
{
    failure("Failed to create branch thread: ", error)
}

/// The lines of the notice on a branch that was entered.
pub open spec fn entry_notice(depth: usize, summary: Option<String>) -> Seq<styled::LineView> {
    let kind = BranchStateNoticeKind::BranchFrom { depth, selection_summary: summary };
    plain_text_lines(
        seq![branch_chrome::state_title(kind, Seq::<char>::empty())] + branch_chrome::state_body(
            kind,
        ),
    )
}

/// What the chat widget knows of a branch when its thread was attached; a complaint where
/// it could not be attached.
pub fn enter_branch(
    attached: Result<(), &str>,
    branch_context: &BranchForkContext,
) -> (entered: Result<EnteredBranch, String>)
    ensures
        match (attached, entered) {
            (Ok(_), Ok(branch)) => {
                &&& branch.branch_depth == branch_context.branch_depth
                &&& branch.branch_anchor_selection_summary == branch_context.selection_summary
                &&& branch.branch_origin_snapshot == branch_context.origin_snapshot
                &&& styled::line_views(branch.notice_lines@) == entry_notice(
                    branch_context.branch_depth,
                    branch_context.selection_summary,
                )
            },
            (Err(error), Err(message)) => message@ == "Failed to attach to branch thread: "@
                + error@,
            _ => false,
        },
{
    if let Err(error) = attached {
        return Err(failure("Failed to attach to branch thread: ", error));
    }
    let notice = BranchStateNoticeKind::BranchFrom {
        depth: branch_context.branch_depth,
        selection_summary: copy_optional(&branch_context.selection_summary),
    };
    proof {
        reveal_strlit("");
        assert(""@ =~= Seq::<char>::empty());
    }
    let title = branch_state_title(&notice, "");
    let body = branch_state_body(&notice);
    let ghost content = seq![title@] + strings::texts(body@);
    let mut notice_lines: Vec<Line> = Vec::new();
    notice_lines.push(Line::of_text(title.as_str(), Style::plain()));
    let mut index: usize = 0;
    assert(styled::line_views(notice_lines@) =~= plain_text_lines(content).take(1));
    while index < body.len()
        invariant
            index <= body@.len(),
            content == seq![title@] + strings::texts(body@),
            styled::line_views(notice_lines@) =~= plain_text_lines(content).take(index as int + 1),
        decreases body@.len() - index,
    {
        let ghost before = styled::line_views(notice_lines@);
        notice_lines.push(Line::of_text(body[index].as_str(), Style::plain()));
        assert(content[index as int + 1] == body@[index as int]@);
        assert(styled::line_views(notice_lines@) =~= before.push(
            plain_text_lines(content)[index as int + 1],
        ));
        index = index + 1;
    }
    assert(styled::line_views(notice_lines@) =~= plain_text_lines(content));
    Ok(
        EnteredBranch {
            branch_depth: branch_context.branch_depth,
            branch_anchor_selection_summary: copy_optional(&branch_context.selection_summary),
            branch_origin_snapshot: branch_context.origin_snapshot,
            notice_lines,
        },
    )
}

// ---------------------------------------------------------------------------
// Returning from a branch
// ---------------------------------------------------------------------------
/// The parent thread to resume; a complaint outside of a branch.
pub fn start_return_from_branch(parent_thread_id: Option<&ThreadId>) -> (started: Result<
    ThreadId,
    String,
>)
    ensures
        match (parent_thread_id, started) {
            (Some(parent), Ok(asked)) => asked == *parent,
            (None, Err(message)) => message@
                == "Not in a branch — no parent thread to return to."@,
            _ => false,
        },
{
    match parent_thread_id {
        Some(parent) => Ok(parent.copy()),
        None => Err("Not in a branch — no parent thread to return to.".to_owned()),
    }
}

/// What the user is told when the parent cannot be resumed.
pub fn return_failure_message(error: &str) -> (message: String)
    ensures
        message@ == "Failed to return to parent thread: "@ + error@,
{
    failure("Failed to return to parent thread: ", error)
}

/// The line of the notice on a return from a branch.
pub open spec fn return_notice(depth: int) -> Seq<styled::LineView> {
    plain_text_lines(seq!["Returned to parent from branch d"@ + strings::decimal(depth as nat)])
}

/// The depth of a branch that was left, which is at least one.
pub open spec fn left_depth(depth: int) -> int {
    if depth == 0 {
        1
    } else {
        depth
    }
}

/// The line of the notice on a return from a branch.
fn make_return_notice(depth: usize) -> (lines: Vec<Line>)
    ensures
        styled::line_views(lines@) == return_notice(depth as int),
{
    let notice = BranchStateNoticeKind::ReturnedToParent {
        depth,
        selection_summary: None,
        previous_thread_usage_line: None,
    };
    proof {
        reveal_strlit("");
    }
    let title = branch_state_title(&notice, "");
    let mut lines: Vec<Line> = Vec::new();
    lines.push(Line::of_text(title.as_str(), Style::plain()));
    assert(title@ =~= "Returned to parent from branch d"@ + strings::decimal(depth as nat));
    assert(styled::line_views(lines@) =~= return_notice(depth as int));
    lines
}

/// The notice on a return from a branch when the parent thread was attached; a complaint
/// where it could not be attached.
pub fn finish_return_from_branch(attached: Result<(), &str>, branch_depth: usize) -> (finished:
    Result<Vec<Line>, String>)
    ensures
        match (attached, finished) {
            (Ok(_), Ok(lines)) => styled::line_views(lines@) == return_notice(
                left_depth(branch_depth as int),
            ),
            (Err(error), Err(message)) => message@ == "Failed to attach to parent thread: "@
                + error@,
            _ => false,
        },
{
    match attached {
        Ok(_) => {
            let parent_depth: usize = branch_depth.saturating_sub(1);
            Ok(make_return_notice(parent_depth + 1))
        },
        Err(error) => Err(failure("Failed to attach to parent thread: ", error)),
    }
}

/// The notice on a selection in the navigator, when the selected thread was resumed: only a
/// return from a branch to an ancestor that is now active has one.
pub fn navigator_selection_notice(
    active_thread_id: Option<&ThreadId>,
    thread_id: &ThreadId,
    kind: BranchNavigatorSelectionKind,
    previous_branch_depth: usize,
) -> (notice: Option<Vec<Line>>)
    ensures
        ({
            let returned = branch_chrome::opt_ref(active_thread_id) == Some(thread_id@)
                && kind is ReturnToAncestor && previous_branch_depth > 0;
            match notice {
                Some(lines) => returned && styled::line_views(lines@) == return_notice(
                    previous_branch_depth as int,
                ),
                None => !returned,
            }
        }),
{
    let active = match active_thread_id {
        Some(active) => active.is_same(thread_id),
        None => false,
    };
    if active && kind == BranchNavigatorSelectionKind::ReturnToAncestor && previous_branch_depth
        > 0 {
        Some(make_return_notice(previous_branch_depth))
    } else {
        None
    }
}

/// A fork carries what was located: the fork point, the place it came from and the three
/// summaries, each in its own place, one level below its parent. A refusal is passed on as
/// its own message.
pub proof fn law_forks_carry_what_was_located(
    fork: Result<BranchForkContext, String>,
    located: Result<branch_locator::TargetView, BranchSnippetError>,
    parent_depth: int,
)
    requires
        follows_from(fork, located, parent_depth),
    ensures
        fork is Ok <==> located is Ok,
        fork matches Ok(context) ==> {
            &&& context.branch_depth == parent_depth + 1
            &&& context.snapshot == located->Ok_0.snapshot
            &&& context.origin_snapshot == located->Ok_0.origin_snapshot
            &&& strings::opt_text(context.selection_summary) == located->Ok_0.selection_summary
            &&& strings::opt_text(context.anchor_head_summary) == located->Ok_0.anchor_head_summary
            &&& strings::opt_text(context.anchor_tail_summary) == located->Ok_0.anchor_tail_summary
        },
        fork matches Err(message) ==> message@ == match located->Err_0 {
            BranchSnippetError::EmptySnippet => "Snippet is empty. Usage: /branch-from <text>"@,
            BranchSnippetError::NoAssistantResponse => {
                "/branch-from requires at least one completed assistant response."@
            },
            BranchSnippetError::NoMatch => {
                "Snippet not found in any assistant response. Check the text and try again."@
            },
            BranchSnippetError::AmbiguousMatch => {
                "Snippet matches multiple assistant responses — provide more context to disambiguate."@
            },
            BranchSnippetError::NoAnchor => {
                "Cannot anchor this snippet to a source line. Try selecting a longer or more distinctive excerpt."@
            },
        },
{
}

/// Leaving a branch tells of its depth, which is at least one.
pub proof fn law_left_branches_have_a_depth(depth: int)
    requires
        0 <= depth,
    ensures
        left_depth(0) == 1,
        depth > 0 ==> left_depth(depth) == depth,
        return_notice(depth).len() == 1,
        return_notice(depth)[0].spans == styled::raw_spans(
            "Returned to parent from branch d"@ + strings::decimal(depth as nat),
        ),
{
}

/// Entering a branch shows its title, without a thread, and then how to go back.
pub proof fn law_entering_a_branch_shows_how_to_go_back(depth: usize, summary: Option<String>)
    ensures
        ({
            let lines = entry_notice(depth, summary);
            &&& lines.len() == 2
            &&& summary is None || summary->0@.len() == 0 ==> lines[0].spans == styled::raw_spans(
                "Started branch d"@ + strings::decimal(depth as nat),
            )
            &&& summary is Some && 0 < summary->0@.len() <= 48 ==> lines[0].spans
                == styled::raw_spans(
                "Branched (branch d"@ + strings::decimal(depth as nat) + ") from: "@ + summary->0@,
            )
            &&& lines[1].spans == styled::raw_spans(
                "Press Esc or /return to go back to the parent thread."@,
            )
        }),
{
    branch_chrome::law_titles_name_the_branch(depth, summary, None, Seq::<char>::empty());
}

} // verus!
