//! The labels and notices that tell a reader which branch they are in.
use crate::pending_marker;
use crate::protocol::ThreadForkSnapshot;
use crate::strings;
use crate::strings::{is_blank, push_decimal, same_text, starts_with, trim};
use crate::text::{to_chars, to_text};
use crate::threads::ThreadId;
use vstd::prelude::*;
use vstd::string::*;

verus! {

/// What the line on the token usage of the previous thread starts with.
pub const PREVIOUS_THREAD_TOKEN_USAGE_PREFIX: &'static str = "Previous thread token usage:";

/// The greatest number of characters of a summary in a title.
pub const TITLE_SUMMARY_CHARS: usize = 48;

/// A change of branch that the reader is told of.
#[derive(Clone, Debug, PartialEq, Eq)]
pub enum BranchStateNoticeKind {
    /// A branch was started from a point of a reply.
    BranchFrom { depth: usize, selection_summary: Option<String> },
    /// A branch was resumed.
    Resumed {
        depth: usize,
        selection_summary: Option<String>,
        previous_thread_usage_line: Option<String>,
    },
    /// The reader went back to the parent of a branch.
    ReturnedToParent {
        depth: usize,
        selection_summary: Option<String>,
        previous_thread_usage_line: Option<String>,
    },
}

// ---------------------------------------------------------------------------
// Debugging
// ---------------------------------------------------------------------------
/// An ASCII letter in lower case; any other character as it is.
pub open spec fn ascii_lower(ch: char) -> char {
    if 'A' <= ch <= 'Z' {
        (ch as u32 + 32) as char
    } else {
        ch
    }
}

/// A text with its ASCII letters in lower case.
pub open spec fn lowered(source: Seq<char>) -> Seq<char> {
    source.map_values(|ch: char| ascii_lower(ch))
}

/// Whether a setting switches the debugging of branches on.
pub open spec fn enables(value: Seq<char>) -> bool {
    let setting = lowered(strings::trimmed(value));
    setting == "1"@ || setting == "true"@ || setting == "yes"@
}

/// An ASCII letter in lower case; any other character as it is.
fn to_ascii_lower(ch: char) -> (lower: char)
    ensures
        lower == ascii_lower(ch),
{
    if 'A' <= ch && ch <= 'Z' {
        (ch as u8 + 32u8) as char
    } else {
        ch
    }
}

/// Whether a setting switches the debugging of branches on.
pub fn branch_chrome_debug_value_enables(value: &str) -> (yes: bool)
    ensures
        yes == enables(value@),
{
    let trimmed = trim(value);
    let chars = to_chars(trimmed.as_str());
    let mut setting = String::new();
    let mut index: usize = 0;
    while index < chars.len()
        invariant
            index <= chars@.len(),
            chars@ == trimmed@,
            setting@ =~= lowered(trimmed@).take(index as int),
        decreases chars@.len() - index,
    {
        setting.push(to_ascii_lower(chars[index]));
        index = index + 1;
    }
    assert(setting@ =~= lowered(trimmed@));
    same_text(setting.as_str(), "1") || same_text(setting.as_str(), "true") || same_text(
        setting.as_str(),
        "yes",
    )
}

// ---------------------------------------------------------------------------
// Labels
// ---------------------------------------------------------------------------
/// The last characters of the identity of a thread, by which it is named.
pub fn branch_thread_id_suffix(thread_id: &ThreadId) -> (name: String)
    ensures
        name@ == pending_marker::suffix(thread_id@),
{
    let chars = to_chars(thread_id.as_text());
    let count: usize = chars.len();
    let start: usize = if count < pending_marker::BRANCH_ID_SUFFIX_CHARS {
        0
    } else {
        count - pending_marker::BRANCH_ID_SUFFIX_CHARS
    };
    let name = to_text(&chars, start, count);
    assert(name@ =~= pending_marker::suffix(thread_id@));
    name
}

/// The label of a branch: its depth, and its name and its anchor, where they are known.
pub open spec fn context_label(
    depth: int,
    thread_id: Option<Seq<char>>,
    summary: Option<Seq<char>>,
) -> Seq<char> {
    "Child branch d"@ + strings::decimal(depth as nat) + match thread_id {
        Some(thread_id) => " · "@ + pending_marker::suffix(thread_id),
        None => Seq::<char>::empty(),
    } + match summary {
        Some(summary) if !strings::blank(summary) => " · \"..."@ + strings::trimmed(summary)
            + "\""@,
        _ => Seq::<char>::empty(),
    } + " · Use /branch-list to switch"@
}

/// The identity behind a reference.
pub open spec fn opt_ref(thread_id: Option<&ThreadId>) -> Option<Seq<char>> {
    match thread_id {
        Some(thread_id) => Some(thread_id@),
        None => None,
    }
}

/// The label of a branch. The fork point does not change it.
pub fn branch_context_label(
    branch_depth: usize,
    thread_id: Option<&ThreadId>,
    selection_summary: Option<&str>,
    _origin_snapshot: Option<&ThreadForkSnapshot>,
) -> (label: String)
    ensures
        label@ == context_label(
            branch_depth as int,
            opt_ref(thread_id),
            strings::opt_str(selection_summary),
        ),
{
    let mut label = "Child branch d".to_owned();
    push_decimal(&mut label, branch_depth as u64);
    let ghost start = label@;
    let ghost mut named = Seq::<char>::empty();
    if let Some(thread_id) = thread_id {
        label.append(" · ");
        let name = branch_thread_id_suffix(thread_id);
        label.append(name.as_str());
        proof {
            named = " · "@ + name@;
        }
    }
    assert(label@ =~= start + named);
    let ghost before = label@;
    let ghost mut anchored = Seq::<char>::empty();
    if let Some(summary) = selection_summary {
        if !is_blank(summary) {
            let trimmed = trim(summary);
            label.append(" · \"...");
            label.append(trimmed.as_str());
            label.append("\"");
            proof {
                anchored = " · \"..."@ + trimmed@ + "\""@;
            }
        }
    }
    assert(label@ =~= before + anchored);
    label.append(" · Use /branch-list to switch");
    label
}

// ---------------------------------------------------------------------------
// Titles
// ---------------------------------------------------------------------------
/// A text of at most a number of characters: a longer one loses its end to an ellipsis.
pub open spec fn truncated_summary(source: Seq<char>, max_chars: int) -> Seq<char> {
    if source.len() <= max_chars {
        source
    } else if max_chars > 0 {
        source.take(max_chars - 1).push('…')
    } else {
        seq!['…']
    }
}

/// A text of at most a number of characters.
pub fn truncate_summary(text: &str, max_chars: usize) -> (truncated: String)
    ensures
        truncated@ == truncated_summary(text@, max_chars as int),
{
    let chars = to_chars(text);
    if chars.len() <= max_chars {
        return text.to_owned();
    }
    let kept: usize = if max_chars > 0 {
        max_chars - 1
    } else {
        0
    };
    let mut truncated = to_text(&chars, 0, kept);
    truncated.push('…');
    assert(truncated@ =~= truncated_summary(text@, max_chars as int));
    truncated
}

/// A truncated summary fits, and is the summary itself where that fits.
pub proof fn law_truncated_summary_fits(source: Seq<char>, max_chars: int)
    requires
        0 < max_chars,
    ensures
        truncated_summary(source, max_chars).len() <= max_chars,
        source.len() <= max_chars ==> truncated_summary(source, max_chars) == source,
{
}

/// A text, where there is one and it is not empty.
pub open spec fn non_empty(summary: Option<String>) -> Option<Seq<char>> {
    match summary {
        Some(summary) if summary@.len() > 0 => Some(summary@),
        _ => None,
    }
}

/// The name of a branch in a title: its depth, and its suffix where there is one.
pub open spec fn titled_branch(depth: int, suffix: Seq<char>) -> Seq<char> {
    strings::decimal(depth as nat) + if suffix.len() == 0 {
        Seq::<char>::empty()
    } else {
        " · "@ + suffix
    }
}

/// The title of a notice.
pub open spec fn state_title(kind: BranchStateNoticeKind, suffix: Seq<char>) -> Seq<char> {
    match kind {
        BranchStateNoticeKind::BranchFrom { depth, selection_summary } => match non_empty(
            selection_summary,
        ) {
            Some(summary) => "Branched (branch d"@ + titled_branch(depth as int, suffix)
                + ") from: "@ + truncated_summary(summary, TITLE_SUMMARY_CHARS as int),
            None => "Started branch d"@ + titled_branch(depth as int, suffix),
        },
        BranchStateNoticeKind::Resumed { depth, .. } => "Resumed child branch d"@ + titled_branch(
            depth as int,
            suffix,
        ),
        BranchStateNoticeKind::ReturnedToParent { depth, .. } => {
            "Returned to parent from branch d"@ + titled_branch(depth as int, suffix)
        },
    }
}

/// A text followed by the name of a branch.
fn with_branch(start: &str, depth: usize, thread_id_suffix: &str) -> (text: String)
    ensures
        text@ == start@ + titled_branch(depth as int, thread_id_suffix@),
{
    let mut text = start.to_owned();
    push_decimal(&mut text, depth as u64);
    if !thread_id_suffix.is_empty() {
        text.append(" · ");
        text.append(thread_id_suffix);
    }
    assert(text@ =~= start@ + titled_branch(depth as int, thread_id_suffix@));
    text
}

/// The title of a notice.
pub fn branch_state_title(kind: &BranchStateNoticeKind, thread_id_suffix: &str) -> (title: String)
    ensures
        title@ == state_title(*kind, thread_id_suffix@),
{
    match kind {
        BranchStateNoticeKind::BranchFrom { depth, selection_summary } => {
            if let Some(summary) = selection_summary {
                if !summary.as_str().is_empty() {
                    let truncated = truncate_summary(summary.as_str(), TITLE_SUMMARY_CHARS);
                    let mut title = with_branch("Branched (branch d", *depth, thread_id_suffix);
                    title.append(") from: ");
                    title.append(truncated.as_str());
                    return title;
                }
            }
            with_branch("Started branch d", *depth, thread_id_suffix)
        },
        BranchStateNoticeKind::Resumed { depth, .. } => with_branch(
            "Resumed child branch d",
            *depth,
            thread_id_suffix,
        ),
        BranchStateNoticeKind::ReturnedToParent { depth, .. } => with_branch(
            "Returned to parent from branch d",
            *depth,
            thread_id_suffix,
        ),
    }
}

// ---------------------------------------------------------------------------
// Bodies
// ---------------------------------------------------------------------------
/// A usage line without its own label.
pub open spec fn bare_usage(line: Seq<char>) -> Seq<char> {
    if "Token usage: "@.is_prefix_of(line) {
        line.skip("Token usage: "@.len() as int)
    } else {
        line
    }
}

/// The line on the token usage of the previous thread.
pub open spec fn usage_line(line: Seq<char>) -> Seq<char> {
    PREVIOUS_THREAD_TOKEN_USAGE_PREFIX@ + " "@ + bare_usage(line)
}

/// The lines on a focus and on the usage of the previous thread, where they are known, with
/// an empty line between them, and a closing line.
pub open spec fn focus_body(
    label: Seq<char>,
    focus: Option<Seq<char>>,
    usage: Option<Seq<char>>,
    closing: Seq<char>,
) -> Seq<Seq<char>> {
    let focus_lines = match focus {
        Some(focus) => seq![label + focus + "\""@],
        None => Seq::<Seq<char>>::empty(),
    };
    let usage_lines = match usage {
        Some(usage) => if focus is Some {
            seq![Seq::<char>::empty(), usage_line(usage)]
        } else {
            seq![usage_line(usage)]
        },
        None => Seq::<Seq<char>>::empty(),
    };
    (focus_lines + usage_lines).push(closing)
}

/// The body lines of a notice.
pub open spec fn state_body(kind: BranchStateNoticeKind) -> Seq<Seq<char>> {
    match kind {
        BranchStateNoticeKind::BranchFrom { .. } => seq![
            "Press Esc or /return to go back to the parent thread."@,
        ],
        BranchStateNoticeKind::Resumed { selection_summary, previous_thread_usage_line, .. } => {
            focus_body(
                "Branch focus: \""@,
                non_empty(selection_summary),
                strings::opt_text(previous_thread_usage_line),
                "Type your reply to continue in this branch."@,
            )
        },
        BranchStateNoticeKind::ReturnedToParent {
            selection_summary,
            previous_thread_usage_line,
            ..
        } => focus_body(
            "Returned branch focus: \""@,
            non_empty(selection_summary),
            strings::opt_text(previous_thread_usage_line),
            "Type your reply to continue in the parent thread."@,
        ),
    }
}

/// The line on the token usage of the previous thread.
fn make_usage_line(line: &str) -> (text: String)
    ensures
        text@ == usage_line(line@),
{
    let mut text = PREVIOUS_THREAD_TOKEN_USAGE_PREFIX.to_owned();
    text.append(" ");
    if starts_with(line, "Token usage: ") {
        let chars = to_chars(line);
        let label = to_chars("Token usage: ");
        let rest = to_text(&chars, label.len(), chars.len());
        assert(rest@ =~= line@.skip(label@.len() as int));
        text.append(rest.as_str());
    } else {
        text.append(line);
    }
    text
}

/// The lines on a focus and on the usage of the previous thread, and a closing line.
fn make_focus_body(
    label: &str,
    selection_summary: &Option<String>,
    previous_thread_usage_line: &Option<String>,
    closing: &str,
) -> (lines: Vec<String>)
    ensures
        strings::texts(lines@) == focus_body(
            label@,
            non_empty(*selection_summary),
            strings::opt_text(*previous_thread_usage_line),
            closing@,
        ),
{
    let mut lines: Vec<String> = Vec::new();
    if let Some(summary) = selection_summary {
        if !summary.as_str().is_empty() {
            let mut line = label.to_owned();
            line.append(summary.as_str());
            line.append("\"");
            lines.push(line);
        }
    }
    let ghost focus_lines = strings::texts(lines@);
    assert(focus_lines =~= match non_empty(*selection_summary) {
        Some(focus) => seq![label@ + focus + "\""@],
        None => Seq::<Seq<char>>::empty(),
    });
    if let Some(usage) = previous_thread_usage_line {
        if lines.len() > 0 {
            lines.push(String::new());
            assert(strings::texts(lines@) =~= focus_lines.push(Seq::<char>::empty()));
        }
        let ghost before = strings::texts(lines@);
        lines.push(make_usage_line(usage.as_str()));
        assert(strings::texts(lines@) =~= before.push(usage_line(usage@)));
    }
    let ghost before = strings::texts(lines@);
    lines.push(closing.to_owned());
    assert(strings::texts(lines@) =~= before.push(closing@));
    assert(strings::texts(lines@) =~= focus_body(
        label@,
        non_empty(*selection_summary),
        strings::opt_text(*previous_thread_usage_line),
        closing@,
    ));
    lines
}

/// The body lines of a notice.
pub fn branch_state_body(kind: &BranchStateNoticeKind) -> (lines: Vec<String>)
    ensures
        strings::texts(lines@) == state_body(*kind),
{
    match kind {
        BranchStateNoticeKind::BranchFrom { .. } => {
            let mut lines: Vec<String> = Vec::new();
            lines.push("Press Esc or /return to go back to the parent thread.".to_owned());
            assert(strings::texts(lines@) =~= state_body(*kind));
            lines
        },
        BranchStateNoticeKind::Resumed { selection_summary, previous_thread_usage_line, .. } => {
            make_focus_body(
                "Branch focus: \"",
                selection_summary,
                previous_thread_usage_line,
                "Type your reply to continue in this branch.",
            )
        },
        BranchStateNoticeKind::ReturnedToParent {
            selection_summary,
            previous_thread_usage_line,
            ..
        } => make_focus_body(
            "Returned branch focus: \"",
            selection_summary,
            previous_thread_usage_line,
            "Type your reply to continue in the parent thread.",
        ),
    }
}

/// Whitespace around a setting makes no difference, and neither does the case of a letter.
pub proof fn law_settings_ignore_space_and_case(
    before: Seq<char>,
    value: Seq<char>,
    after: Seq<char>,
    ch: char,
)
    requires
        strings::blank(before),
        strings::blank(after),
        value.len() > 0,
        !strings::whitespace(value[0]),
        !strings::whitespace(value.last()),
    ensures
        enables(before + value + after) <==> {
            ||| lowered(value) == "1"@
            ||| lowered(value) == "true"@
            ||| lowered(value) == "yes"@
        },
        lowered(value).len() == value.len(),
        'A' <= ch <= 'Z' ==> ascii_lower(ch) as int == ch as int + 32,
        !('A' <= ch <= 'Z') ==> ascii_lower(ch) == ch,
{
    strings::law_trimming_leaves_the_visible_middle(before, value, after);
}

/// The label of a branch names its depth, its thread and its selection, each of the last two
/// only where it is known, and ends with how to switch.
pub proof fn law_labels_name_what_is_known(
    depth: int,
    thread_id: Seq<char>,
    summary: Option<Seq<char>>,
)
    requires
        0 <= depth,
    ensures
        ({
            let start = "Child branch d"@ + strings::decimal(depth as nat);
            let named = start + (" · "@ + pending_marker::suffix(thread_id));
            let known = summary is Some && !strings::blank(summary->0);
            let selection = " · \"..."@ + strings::trimmed(summary->0) + "\""@;
            let end = " · Use /branch-list to switch"@;
            &&& known ==> context_label(depth, None, summary) == start + selection + end
            &&& !known ==> context_label(depth, None, summary) == start + end
            &&& known ==> context_label(depth, Some(thread_id), summary) == named + selection + end
            &&& !known ==> context_label(depth, Some(thread_id), summary) == named + end
        }),
{
    let start = "Child branch d"@ + strings::decimal(depth as nat);
    let named = start + (" · "@ + pending_marker::suffix(thread_id));
    let none = Seq::<char>::empty();
    assert(start + none =~= start);
    assert(named + none =~= named);
}

/// A summary that is too long is cut to one character less than what fits and ends in an
/// ellipsis.
pub proof fn law_long_summaries_end_in_an_ellipsis(source: Seq<char>, max_chars: int)
    requires
        0 < max_chars < source.len(),
    ensures
        truncated_summary(source, max_chars).len() == max_chars,
        truncated_summary(source, max_chars).last() == '…',
        truncated_summary(source, max_chars).drop_last().is_prefix_of(source),
{
}

/// The title of a notice says what happened and names the depth of the branch, and its thread
/// where that is known. The selection is shown only for a new branch.
pub proof fn law_titles_name_the_branch(
    depth: usize,
    summary: Option<String>,
    usage: Option<String>,
    suffix: Seq<char>,
)
    ensures
        ({
            let branch = if suffix.len() == 0 {
                strings::decimal(depth as nat)
            } else {
                strings::decimal(depth as nat) + (" · "@ + suffix)
            };
            let from = BranchStateNoticeKind::BranchFrom { depth, selection_summary: summary };
            let resumed = BranchStateNoticeKind::Resumed {
                depth,
                selection_summary: summary,
                previous_thread_usage_line: usage,
            };
            let returned = BranchStateNoticeKind::ReturnedToParent {
                depth,
                selection_summary: summary,
                previous_thread_usage_line: usage,
            };
            &&& summary is None || summary->0@.len() == 0 ==> state_title(from, suffix)
                == "Started branch d"@ + branch
            &&& summary is Some && 0 < summary->0@.len() <= 48 ==> state_title(from, suffix)
                == "Branched (branch d"@ + branch + ") from: "@ + summary->0@
            &&& summary is Some && summary->0@.len() > 48 ==> state_title(from, suffix)
                == "Branched (branch d"@ + branch + ") from: "@ + summary->0@.take(47).push('…')
            &&& state_title(resumed, suffix) == "Resumed child branch d"@ + branch
            &&& state_title(returned, suffix) == "Returned to parent from branch d"@ + branch
        }),
{
    assert(strings::decimal(depth as nat) + Seq::<char>::empty() =~= strings::decimal(
        depth as nat,
    ));
}

/// The body of a notice ends with what to do next. A notice of a resumed or a left branch
/// names the selection first, and then the usage of the thread before, behind an empty line
/// where both are known.
pub proof fn law_bodies_end_with_what_to_do(
    depth: usize,
    summary: Option<String>,
    usage: Option<String>,
    returned: bool,
)
    ensures
        ({
            let kind = if returned {
                BranchStateNoticeKind::ReturnedToParent {
                    depth,
                    selection_summary: summary,
                    previous_thread_usage_line: usage,
                }
            } else {
                BranchStateNoticeKind::Resumed {
                    depth,
                    selection_summary: summary,
                    previous_thread_usage_line: usage,
                }
            };
            let body = state_body(kind);
            let label = if returned {
                "Returned branch focus: \""@
            } else {
                "Branch focus: \""@
            };
            let focused = summary is Some && summary->0@.len() > 0;
            let line = "Previous thread token usage:"@ + " "@ + bare_usage(usage->0@);
            &&& returned ==> body.last() == "Type your reply to continue in the parent thread."@
            &&& !returned ==> body.last() == "Type your reply to continue in this branch."@
            &&& focused ==> body[0] == label + summary->0@ + "\""@
            &&& focused && usage is Some ==> body.len() == 4 && body[1].len() == 0 && body[2]
                == line
            &&& focused && usage is None ==> body.len() == 2
            &&& !focused && usage is Some ==> body.len() == 2 && body[0] == line
            &&& !focused && usage is None ==> body.len() == 1
        }),
        state_body(BranchStateNoticeKind::BranchFrom { depth, selection_summary: summary })
            == seq!["Press Esc or /return to go back to the parent thread."@],
{
}

/// A usage line is shown without the words that it starts with, and any other line as it is.
pub proof fn law_usage_is_shown_once(usage: Seq<char>, other: Seq<char>)
    requires
        !"Token usage: "@.is_prefix_of(other),
    ensures
        bare_usage("Token usage: "@ + usage) == usage,
        bare_usage(other) == other,
{
    let line = "Token usage: "@ + usage;
    assert("Token usage: "@ =~= line.subrange(0, "Token usage: "@.len() as int));
    assert(line.skip("Token usage: "@.len() as int) =~= usage);
}

/// A thread is known by its text.
pub proof fn law_threads_are_known_by_their_text(thread_id: &ThreadId)
    ensures
        opt_ref(Some(thread_id)) == Some(thread_id@),
        opt_ref(None) is None,
{
}

} // verus!
