//! From a copied snippet to the point of a reply at which a branch starts.
//!
//! A snippet is searched in all assistant responses. Where one of them holds it once, the
//! branch starts at the end of the paragraph or list item that the snippet starts in.
use crate::anchor;
use crate::anchor::{origin_snapshot_for_response, snapshot_from_display_line_index};
use crate::history_cell;
use crate::history_cell::HistoryCell;
use crate::normalized;
use crate::normalized::NormalizedText;
use crate::protocol::{ThreadForkSnapshot, Turn};
use crate::responses;
use crate::responses::{
    assistant_responses, source_search_lines_from_source_text, AssistantResponse,
};
use crate::snippet;
use crate::snippet::{
    find_branch_snippet_match, normalized_snippet_candidates, BranchSnippetError,
};
use crate::strings;
use crate::strings::{is_blank, join, split_words};
use crate::structure;
use crate::structure::{
    branch_anchor_head_summary, branch_anchor_tail_summary_for_line, structure_end_line,
    structure_start_line,
};
use crate::styled;
use crate::styled::Line;
use crate::text;
use crate::text::{byte_count, locate_char, to_chars};
use vstd::prelude::*;
use vstd::string::*;

verus! {

/// The point of a reply at which a branch starts, and how it is recognized.
#[derive(Clone, Debug, PartialEq, Eq)]
pub struct BranchReplyTarget {
    pub snapshot: ThreadForkSnapshot,
    pub origin_snapshot: ThreadForkSnapshot,
    pub selection_summary: Option<String>,
    pub anchor_head_summary: Option<String>,
    pub anchor_tail_summary: Option<String>,
}

/// What a target holds.
pub struct TargetView {
    pub snapshot: ThreadForkSnapshot,
    pub origin_snapshot: ThreadForkSnapshot,
    pub selection_summary: Option<Seq<char>>,
    pub anchor_head_summary: Option<Seq<char>>,
    pub anchor_tail_summary: Option<Seq<char>>,
}

impl View for BranchReplyTarget {
    type V = TargetView;

    open spec fn view(&self) -> TargetView {
        TargetView {
            snapshot: self.snapshot,
            origin_snapshot: self.origin_snapshot,
            selection_summary: strings::opt_text(self.selection_summary),
            anchor_head_summary: strings::opt_text(self.anchor_head_summary),
            anchor_tail_summary: strings::opt_text(self.anchor_tail_summary),
        }
    }
}

// ---------------------------------------------------------------------------
// One response
// ---------------------------------------------------------------------------
/// The selection as a reader recognizes it: the words of the first candidate.
pub open spec fn selection_summary(candidates: Seq<Seq<char>>) -> Option<Seq<char>> {
    if candidates.len() == 0 {
        None
    } else {
        structure::summary(strings::words(candidates[0]))
    }
}

/// The first and the last line of the structure in which a match starts.
pub open spec fn selected_lines(lines: Seq<Seq<char>>, start: int) -> (int, int) {
    let first = structure::structure_start(lines, normalized::normal_marks(lines)[start].line);
    (first, structure::structure_end(lines, first))
}

/// The target at the end of the structure of some lines in which a match starts.
pub open spec fn target_at(
    lines: Seq<Seq<char>>,
    start: int,
    snapshot: ThreadForkSnapshot,
    origin_snapshot: ThreadForkSnapshot,
    candidates: Seq<Seq<char>>,
) -> TargetView {
    let selected = selected_lines(lines, start);
    TargetView {
        snapshot,
        origin_snapshot,
        selection_summary: selection_summary(candidates),
        anchor_head_summary: structure::head_summary(lines, selected.0),
        anchor_tail_summary: structure::line_tail_summary(lines, selected.1),
    }
}

/// What the search of one response gives: a target, nothing, or the reason why there can
/// be no target.
pub open spec fn outcome(
    response: responses::ResponseView,
    is_latest: bool,
    latest: Option<Seq<char>>,
    candidates: Seq<Seq<char>>,
) -> Result<Option<TargetView>, BranchSnippetError> {
    let lines = responses::lines_to_search(response, latest, is_latest);
    match snippet::first_single_match(normalized::normal_text(lines), candidates) {
        Err(BranchSnippetError::NoMatch) => Ok(None),
        Err(error) => Err(error),
        Ok((start, _)) => {
            let snapshot = match responses::raw_markdown(response, latest, is_latest) {
                Some(source) => anchor::snapshot_at_line(
                    source,
                    response.source_segments,
                    response.index,
                    selected_lines(lines, start).1,
                    is_latest,
                    response.single_segment,
                ),
                None => None,
            };
            match snapshot {
                Some(snapshot) => Ok(
                    Some(
                        target_at(
                            lines,
                            start,
                            snapshot,
                            anchor::origin_of(response.index, snapshot),
                            candidates,
                        ),
                    ),
                ),
                None => Err(BranchSnippetError::NoAnchor),
            }
        },
    }
}

/// What the search of a markdown text alone gives.
pub open spec fn markdown_outcome(source: Seq<char>, candidates: Seq<Seq<char>>) -> Result<
    TargetView,
    BranchSnippetError,
> {
    let lines = responses::search_lines(source);
    match snippet::first_single_match(normalized::normal_text(lines), candidates) {
        Err(error) => Err(error),
        Ok((start, _)) => match anchor::snapshot_at_line(
            source,
            None,
            0,
            selected_lines(lines, start).1,
            true,
            true,
        ) {
            Some(snapshot) => Ok(target_at(lines, start, snapshot, snapshot, candidates)),
            None => Err(BranchSnippetError::NoAnchor),
        },
    }
}

/// A single match holds at least one character.
pub proof fn lemma_match_is_visible(source: Seq<char>, candidates: Seq<Seq<char>>)
    ensures
        match snippet::first_single_match(source, candidates) {
            Ok((start, end)) => 0 <= start < end <= source.len(),
            Err(_) => true,
        },
    decreases candidates.len(),
{
    if candidates.len() > 0 {
        lemma_match_is_visible(source, candidates.drop_last());
        let candidate = candidates.last();
        strings::law_occurrence_is_the_first(source, candidate, 0);
        if candidate.len() == 0 {
            assert(source.subrange(0, 0) =~= candidate);
            assert(strings::occurs_at(source, candidate, 0));
        }
    }
}

/// The words of a text that trimming leaves anything of.
proof fn lemma_words_of_blank(source: Seq<char>)
    ensures
        strings::blank(source) <==> strings::words(source).len() == 0,
        strings::blank(source) ==> strings::pieces(source, strings::gap()).last().len() == 0,
    decreases source.len(),
{
    reveal(Seq::filter);
    let parts = strings::pieces(source, strings::gap());
    strings::lemma_pieces(source, strings::gap());
    if source.len() == 0 {
        assert(parts.drop_last() =~= Seq::<Seq<char>>::empty());
        assert(parts.drop_last().filter(strings::visible()) =~= Seq::<Seq<char>>::empty());
    } else {
        let head = source.drop_last();
        lemma_words_of_blank(head);
        strings::lemma_pieces(head, strings::gap());
        let old = strings::pieces(head, strings::gap());
        assert(strings::blank(source) <==> strings::blank(head) && strings::whitespace(
            source.last(),
        )) by {
            if strings::blank(head) && strings::whitespace(source.last()) {
                assert forall|i: int| 0 <= i < source.len() implies strings::whitespace(
                    #[trigger] source[i],
                ) by {
                    if i < head.len() {
                        assert(source[i] == head[i]);
                    }
                }
            }
            if strings::blank(source) {
                assert forall|i: int| 0 <= i < head.len() implies strings::whitespace(
                    #[trigger] head[i],
                ) by {
                    assert(source[i] == head[i]);
                }
            }
        }
        if strings::whitespace(source.last()) {
            assert(parts.drop_last() =~= old);
        } else {
            assert(parts.last().len() > 0);
        }
    }
}

/// The selection as a reader recognizes it.
pub fn branch_anchor_selection_summary(snippets: &[NormalizedText]) -> (found: Option<String>)
    ensures
        strings::opt_text(found) == selection_summary(snippet::candidate_texts(snippets@)),
{
    if snippets.len() == 0 {
        return None;
    }
    let first = snippets[0].text.as_str();
    proof {
        lemma_words_of_blank(first@);
        assert(snippet::candidate_texts(snippets@)[0] == first@);
    }
    if is_blank(first) {
        return None;
    }
    let words = split_words(first);
    proof {
        reveal_strlit(" ");
        assert(" "@ =~= seq![' ']);
    }
    Some(join(&words, " "))
}

/// The line of normalized text in which a match starts.
fn line_of_match(normalized_source: &NormalizedText, start_byte: usize) -> (line: usize)
    requires
        normalized_source.text@.len() == normalized_source.mapping@.len(),
        exists|start: int|
            0 <= start < normalized_source.text@.len() && start_byte == #[trigger] text::byte_pos(
                normalized_source.text@,
                start,
            ),
    ensures
        forall|start: int|
            0 <= start < normalized_source.text@.len() && start_byte == #[trigger] text::byte_pos(
                normalized_source.text@,
                start,
            ) ==> line == normalized_source.mapping@[start].0,
{
    let chars = to_chars(normalized_source.text.as_str());
    let total: usize = byte_count(normalized_source.text.as_str());
    let index: usize = locate_char(&chars, total, start_byte).0;
    assert forall|start: int|
        0 <= start < chars@.len() && start_byte == #[trigger] text::byte_pos(
            chars@,
            start,
        ) implies start == index by {
        text::lemma_char_index_of_pos(chars@, start);
    }
    normalized_source.mapping[index].0
}

/// Searches one response.
pub fn locate_branch_snippet_in_response(
    response: &AssistantResponse,
    is_latest_response: bool,
    latest_raw_assistant_markdown: Option<&str>,
    snippets: &[NormalizedText],
) -> (found: Result<Option<BranchReplyTarget>, BranchSnippetError>)
    ensures
        outcome_view(found) == outcome(
            response@,
            is_latest_response,
            strings::opt_str(latest_raw_assistant_markdown),
            snippet::candidate_texts(snippets@),
        ),
{
    let source_search_lines = response.source_search_lines(
        latest_raw_assistant_markdown,
        is_latest_response,
    );
    let ghost lines = strings::texts(source_search_lines@);
    let ghost candidates = snippet::candidate_texts(snippets@);
    let normalized_source = NormalizedText::new(&source_search_lines);
    proof {
        lemma_match_is_visible(normalized_source.text@, candidates);
    }
    let match_range = match find_branch_snippet_match(normalized_source.text.as_str(), snippets) {
        Ok(range) => range,
        Err(BranchSnippetError::NoMatch) => return Ok(None),
        Err(error) => return Err(error),
    };
    let match_start_line_index: usize = line_of_match(&normalized_source, match_range.start);
    let source_line_start_index: usize = structure_start_line(
        &source_search_lines,
        match_start_line_index,
    );
    let source_line_index: usize = structure_end_line(
        &source_search_lines,
        source_line_start_index,
    );
    let raw_markdown = match response.raw_markdown_text(
        latest_raw_assistant_markdown,
        is_latest_response,
    ) {
        Some(raw_markdown) => raw_markdown,
        None => return Err(BranchSnippetError::NoAnchor),
    };
    let source_segments: Option<&[String]> = match &response.source_segments {
        Some(segments) => Some(segments.as_slice()),
        None => None,
    };
    let snapshot = match snapshot_from_display_line_index(
        raw_markdown,
        source_segments,
        response.assistant_message_index,
        source_line_index,
        is_latest_response,
        response.allow_single_segment_fallback,
    ) {
        Some(snapshot) => snapshot,
        None => return Err(BranchSnippetError::NoAnchor),
    };
    let origin_snapshot = origin_snapshot_for_response(
        response.assistant_message_index,
        &snapshot,
    );
    Ok(
        Some(
            BranchReplyTarget {
                snapshot,
                origin_snapshot,
                selection_summary: branch_anchor_selection_summary(snippets),
                anchor_head_summary: branch_anchor_head_summary(
                    &source_search_lines,
                    source_line_start_index,
                ),
                anchor_tail_summary: branch_anchor_tail_summary_for_line(
                    &source_search_lines,
                    source_line_index,
                ),
            },
        ),
    )
}

/// What the search of one response gave.
pub open spec fn outcome_view(found: Result<Option<BranchReplyTarget>, BranchSnippetError>) -> Result<
    Option<TargetView>,
    BranchSnippetError,
> {
    match found {
        Ok(Some(target)) => Ok(Some(target@)),
        Ok(None) => Ok(None),
        Err(error) => Err(error),
    }
}

/// What a search gave.
pub open spec fn result_view(found: Result<BranchReplyTarget, BranchSnippetError>) -> Result<
    TargetView,
    BranchSnippetError,
> {
    match found {
        Ok(target) => Ok(target@),
        Err(error) => Err(error),
    }
}

/// Searches a markdown text alone, as the latest response.
pub fn locate_in_latest_markdown_only(
    raw_assistant_markdown: &str,
    snippets: &[NormalizedText],
) -> (found: Result<BranchReplyTarget, BranchSnippetError>)
    ensures
        result_view(found) == markdown_outcome(
            raw_assistant_markdown@,
            snippet::candidate_texts(snippets@),
        ),
{
    let source_search_lines = source_search_lines_from_source_text(raw_assistant_markdown);
    let ghost candidates = snippet::candidate_texts(snippets@);
    let normalized_source = NormalizedText::new(&source_search_lines);
    proof {
        lemma_match_is_visible(normalized_source.text@, candidates);
    }
    let match_range = match find_branch_snippet_match(normalized_source.text.as_str(), snippets) {
        Ok(range) => range,
        Err(error) => return Err(error),
    };
    let match_start_line_index: usize = line_of_match(&normalized_source, match_range.start);
    let source_line_start_index: usize = structure_start_line(
        &source_search_lines,
        match_start_line_index,
    );
    let source_line_index: usize = structure_end_line(
        &source_search_lines,
        source_line_start_index,
    );
    let snapshot = match snapshot_from_display_line_index(
        raw_assistant_markdown,
        None,
        0,
        source_line_index,
        true,
        true,
    ) {
        Some(snapshot) => snapshot,
        None => return Err(BranchSnippetError::NoAnchor),
    };
    Ok(
        BranchReplyTarget {
            snapshot,
            origin_snapshot: snapshot,
            selection_summary: branch_anchor_selection_summary(snippets),
            anchor_head_summary: branch_anchor_head_summary(
                &source_search_lines,
                source_line_start_index,
            ),
            anchor_tail_summary: branch_anchor_tail_summary_for_line(
                &source_search_lines,
                source_line_index,
            ),
        },
    )
}

// ---------------------------------------------------------------------------
// All responses
// ---------------------------------------------------------------------------
/// What the search of each response gives; the last response is the latest.
pub open spec fn outcomes(
    found: Seq<responses::ResponseView>,
    latest: Option<Seq<char>>,
    candidates: Seq<Seq<char>>,
) -> Seq<Result<Option<TargetView>, BranchSnippetError>> {
    Seq::new(
        found.len(),
        |i: int| outcome(found[i], i + 1 == found.len(), latest, candidates),
    )
}

/// The targets that the searches gave, in their order.
pub open spec fn targets(
    outcomes: Seq<Result<Option<TargetView>, BranchSnippetError>>,
) -> Seq<TargetView>
    decreases outcomes.len(),
{
    if outcomes.len() == 0 {
        Seq::<TargetView>::empty()
    } else {
        match outcomes.last() {
            Ok(Some(target)) => targets(outcomes.drop_last()).push(target),
            _ => targets(outcomes.drop_last()),
        }
    }
}

/// Whether some search failed for a reason.
pub open spec fn fails_with(
    outcomes: Seq<Result<Option<TargetView>, BranchSnippetError>>,
    error: BranchSnippetError,
) -> bool {
    exists|i: int| 0 <= i < outcomes.len() && #[trigger] outcomes[i] == Err::<
        Option<TargetView>,
        BranchSnippetError,
    >(error)
}

/// Whether the search of a response found the snippet once, with an anchor or without.
pub open spec fn holds_snippet(outcome: Result<Option<TargetView>, BranchSnippetError>) -> bool {
    match outcome {
        Ok(Some(_)) => true,
        Err(BranchSnippetError::NoAnchor) => true,
        _ => false,
    }
}

/// The number of responses that hold the snippet once, with an anchor or without.
pub open spec fn matches_in(outcomes: Seq<Result<Option<TargetView>, BranchSnippetError>>) -> int
    decreases outcomes.len(),
{
    if outcomes.len() == 0 {
        0
    } else {
        matches_in(outcomes.drop_last()) + if holds_snippet(outcomes.last()) {
            1int
        } else {
            0int
        }
    }
}

/// The one target of all searches. A snippet is ambiguous where one response holds it
/// more than once or two responses hold it, and has no anchor where the only match has
/// none.
pub open spec fn decided(outcomes: Seq<Result<Option<TargetView>, BranchSnippetError>>) -> Result<
    TargetView,
    BranchSnippetError,
> {
    if fails_with(outcomes, BranchSnippetError::AmbiguousMatch) || matches_in(outcomes) > 1 {
        Err(BranchSnippetError::AmbiguousMatch)
    } else if targets(outcomes).len() == 1 {
        Ok(targets(outcomes)[0])
    } else if fails_with(outcomes, BranchSnippetError::NoAnchor) {
        Err(BranchSnippetError::NoAnchor)
    } else {
        Err(BranchSnippetError::NoMatch)
    }
}

/// Whether all candidates are blank.
pub open spec fn all_blank(candidates: Seq<Seq<char>>) -> bool {
    forall|i: int| 0 <= i < candidates.len() ==> strings::blank(#[trigger] candidates[i])
}

/// The point of a conversation at which a branch from a snippet starts.
pub open spec fn located(
    cells: Seq<history_cell::CellView>,
    turns: Option<Seq<Turn>>,
    latest: Option<Seq<char>>,
    snippet: Seq<char>,
    model: spec_fn(Seq<char>) -> Seq<styled::LineView>,
) -> Result<TargetView, BranchSnippetError> {
    let candidates = snippet::candidates_of(snippet);
    let found = responses::conversation_responses(cells, turns, latest, model);
    if all_blank(candidates) {
        Err(BranchSnippetError::EmptySnippet)
    } else if found.len() == 0 {
        Err(BranchSnippetError::NoAssistantResponse)
    } else {
        decided(outcomes(found, latest, candidates))
    }
}

proof fn lemma_matches_grow(
    outcomes: Seq<Result<Option<TargetView>, BranchSnippetError>>,
    count: int,
)
    requires
        0 <= count <= outcomes.len(),
    ensures
        matches_in(outcomes.take(count)) <= matches_in(outcomes),
    decreases outcomes.len(),
{
    if count == outcomes.len() {
        assert(outcomes.take(count) =~= outcomes);
    } else {
        assert(outcomes.drop_last().take(count) =~= outcomes.take(count));
        lemma_matches_grow(outcomes.drop_last(), count);
    }
}

/// A search fails only for two reasons.
pub proof fn lemma_match_errors(source: Seq<char>, candidates: Seq<Seq<char>>)
    ensures
        match snippet::first_single_match(source, candidates) {
            Ok(_) => true,
            Err(error) => error is NoMatch || error is AmbiguousMatch,
        },
    decreases candidates.len(),
{
    if candidates.len() > 0 {
        lemma_match_errors(source, candidates.drop_last());
    }
}

/// Whether all candidates are blank.
fn all_candidates_blank(snippets: &[NormalizedText]) -> (yes: bool)
    ensures
        yes == all_blank(snippet::candidate_texts(snippets@)),
{
    let ghost candidates = snippet::candidate_texts(snippets@);
    let mut index: usize = 0;
    while index < snippets.len()
        invariant
            index <= snippets@.len(),
            candidates == snippet::candidate_texts(snippets@),
            forall|i: int| 0 <= i < index ==> strings::blank(#[trigger] candidates[i]),
        decreases snippets@.len() - index,
    {
        if !is_blank(snippets[index].text.as_str()) {
            assert(!strings::blank(candidates[index as int]));
            return false;
        }
        index = index + 1;
    }
    true
}

/// The one target of a snippet in some responses.
fn decide(
    found: &[AssistantResponse],
    latest_raw_assistant_markdown: Option<&str>,
    snippets: &[NormalizedText],
) -> (decision: Result<BranchReplyTarget, BranchSnippetError>)
    ensures
        result_view(decision) == decided(
            outcomes(
                responses::response_views(found@),
                strings::opt_str(latest_raw_assistant_markdown),
                snippet::candidate_texts(snippets@),
            ),
        ),
{
    let ghost all = outcomes(
        responses::response_views(found@),
        strings::opt_str(latest_raw_assistant_markdown),
        snippet::candidate_texts(snippets@),
    );
    let total: usize = found.len();
    let mut matched_target: Option<BranchReplyTarget> = None;
    let mut saw_unanchorable_match = false;
    let mut response_index: usize = 0;
    assert(all.take(0) =~= Seq::<Result<Option<TargetView>, BranchSnippetError>>::empty());
    while response_index < total
        invariant
            response_index <= total == found@.len() == all.len(),
            all == outcomes(
                responses::response_views(found@),
                strings::opt_str(latest_raw_assistant_markdown),
                snippet::candidate_texts(snippets@),
            ),
            targets(all.take(response_index as int)) == match matched_target {
                Some(target) => seq![target@],
                None => Seq::<TargetView>::empty(),
            },
            matches_in(all.take(response_index as int)) == if matched_target is Some
                || saw_unanchorable_match {
                1int
            } else {
                0int
            },
            !fails_with(all.take(response_index as int), BranchSnippetError::AmbiguousMatch),
            saw_unanchorable_match == fails_with(
                all.take(response_index as int),
                BranchSnippetError::NoAnchor,
            ),
        decreases total - response_index,
    {
        let ghost head = all.take(response_index as int);
        let ghost taken = all.take(response_index as int + 1);
        let ghost now = all[response_index as int];
        proof {
            assert(taken.drop_last() =~= head);
            assert(taken.last() == now);
            assert(taken[response_index as int] == now);
            assert forall|error: BranchSnippetError| #[trigger]
                fails_with(taken, error) <==> fails_with(head, error) || now == Err::<
                    Option<TargetView>,
                    BranchSnippetError,
                >(error) by {
                if fails_with(head, error) {
                    let i = choose|i: int|
                        0 <= i < head.len() && #[trigger] head[i] == Err::<
                            Option<TargetView>,
                            BranchSnippetError,
                        >(error);
                    assert(taken[i] == head[i]);
                }
                if fails_with(taken, error) {
                    let i = choose|i: int|
                        0 <= i < taken.len() && #[trigger] taken[i] == Err::<
                            Option<TargetView>,
                            BranchSnippetError,
                        >(error);
                    if i < head.len() {
                        assert(taken[i] == head[i]);
                    }
                }
            }
            let response = responses::response_views(found@)[response_index as int];
            lemma_match_errors(
                normalized::normal_text(
                    responses::lines_to_search(
                        response,
                        strings::opt_str(latest_raw_assistant_markdown),
                        response_index + 1 == total,
                    ),
                ),
                snippet::candidate_texts(snippets@),
            );
            lemma_matches_grow(all, response_index as int + 1);
        }
        match locate_branch_snippet_in_response(
            &found[response_index],
            response_index + 1 == total,
            latest_raw_assistant_markdown,
            snippets,
        ) {
            Ok(Some(target)) => {
                if matched_target.is_some() || saw_unanchorable_match {
                    return Err(BranchSnippetError::AmbiguousMatch);
                }
                assert(targets(taken) =~= seq![target@]);
                matched_target = Some(target);
            },
            Ok(None) => {},
            Err(BranchSnippetError::NoAnchor) => {
                if matched_target.is_some() || saw_unanchorable_match {
                    return Err(BranchSnippetError::AmbiguousMatch);
                }
                saw_unanchorable_match = true;
            },
            Err(error) => {
                assert(all[response_index as int] == Err::<Option<TargetView>, BranchSnippetError>(
                    BranchSnippetError::AmbiguousMatch,
                ));
                return Err(error);
            },
        }
        assert(fails_with(taken, BranchSnippetError::NoAnchor) == saw_unanchorable_match);
        response_index = response_index + 1;
    }
    assert(all.take(total as int) =~= all);
    match matched_target {
        Some(target) => Ok(target),
        None => if saw_unanchorable_match {
            Err(BranchSnippetError::NoAnchor)
        } else {
            Err(BranchSnippetError::NoMatch)
        },
    }
}

/// The point of a conversation at which a branch from a snippet starts.
pub fn locate_branch_snippet<F: Fn(&str) -> Vec<Line>>(
    cells: &[HistoryCell],
    turns: Option<&[Turn]>,
    latest_raw_assistant_markdown: Option<&str>,
    snippet: &str,
    append_markdown: &F,
) -> (found: Result<BranchReplyTarget, BranchSnippetError>)
    requires
        styled::is_renderer(*append_markdown),
    ensures
        forall|model: spec_fn(Seq<char>) -> Seq<styled::LineView>| #[trigger]
            styled::renders_as(*append_markdown, model) ==> result_view(found) == located(
                history_cell::cell_views(cells@),
                responses::opt_turns(turns),
                strings::opt_str(latest_raw_assistant_markdown),
                snippet@,
                model,
            ),
{
    let snippets = normalized_snippet_candidates(snippet);
    if all_candidates_blank(&snippets) {
        return Err(BranchSnippetError::EmptySnippet);
    }
    let found = assistant_responses(
        cells,
        turns,
        latest_raw_assistant_markdown,
        append_markdown,
    );
    assert(responses::response_views(found@).len() == found@.len());
    if found.len() == 0 {
        return Err(BranchSnippetError::NoAssistantResponse);
    }
    decide(&found, latest_raw_assistant_markdown, &snippets)
}

// ---------------------------------------------------------------------------
// What locating promises
// ---------------------------------------------------------------------------
proof fn lemma_targets_come_from_outcomes(
    outcomes: Seq<Result<Option<TargetView>, BranchSnippetError>>,
)
    ensures
        targets(outcomes).len() == 1 ==> exists|i: int|
            0 <= i < outcomes.len() && #[trigger] outcomes[i] == Ok::<
                Option<TargetView>,
                BranchSnippetError,
            >(Some(targets(outcomes)[0])) && forall|j: int|
                0 <= j < outcomes.len() && j != i ==> !(#[trigger] outcomes[j] matches Ok(Some(_))),
        targets(outcomes).len() == 0 ==> forall|j: int|
            0 <= j < outcomes.len() ==> !(#[trigger] outcomes[j] matches Ok(Some(_))),
    decreases outcomes.len(),
{
    if outcomes.len() > 0 {
        let head = outcomes.drop_last();
        lemma_targets_come_from_outcomes(head);
        assert forall|j: int| 0 <= j < head.len() implies #[trigger] outcomes[j] == head[j] by {}
        if targets(outcomes).len() == 1 {
            let last = outcomes.len() - 1;
            if outcomes.last() matches Ok(Some(_)) {
                assert(outcomes[last] == Ok::<Option<TargetView>, BranchSnippetError>(
                    Some(targets(outcomes)[0]),
                ));
            } else {
                let i = choose|i: int|
                    0 <= i < head.len() && #[trigger] head[i] == Ok::<
                        Option<TargetView>,
                        BranchSnippetError,
                    >(Some(targets(head)[0])) && forall|j: int|
                        0 <= j < head.len() && j != i ==> !(#[trigger] head[j] matches Ok(Some(_)));
                assert(outcomes[i] == head[i]);
                assert(outcomes[last] == outcomes.last());
            }
        }
    }
}

proof fn lemma_matches_count(
    outcomes: Seq<Result<Option<TargetView>, BranchSnippetError>>,
    i: int,
    j: int,
)
    requires
        0 <= i <= j < outcomes.len(),
        holds_snippet(outcomes[i]),
        holds_snippet(outcomes[j]),
    ensures
        matches_in(outcomes) >= if i == j {
            1int
        } else {
            2int
        },
    decreases outcomes.len(),
{
    let head = outcomes.drop_last();
    lemma_matches_grow(outcomes, 0);
    lemma_matches_grow(head, 0);
    if j < head.len() {
        assert(head[i] == outcomes[i] && head[j] == outcomes[j]);
        lemma_matches_count(head, i, j);
    } else if i < j {
        assert(head[i] == outcomes[i]);
        lemma_matches_count(head, i, i);
    }
}

/// A snippet that two responses hold is ambiguous, whether or not they have an anchor.
pub proof fn law_two_matches_are_ambiguous(
    outcomes: Seq<Result<Option<TargetView>, BranchSnippetError>>,
    i: int,
    j: int,
)
    requires
        0 <= i < j < outcomes.len(),
        holds_snippet(outcomes[i]),
        holds_snippet(outcomes[j]),
    ensures
        decided(outcomes) == Err::<TargetView, BranchSnippetError>(
            BranchSnippetError::AmbiguousMatch,
        ),
{
    lemma_matches_count(outcomes, i, j);
}

/// A target that is decided on is that of one response, and no other response holds the
/// snippet.
pub proof fn law_decided_target_is_the_only_one(
    outcomes: Seq<Result<Option<TargetView>, BranchSnippetError>>,
)
    requires
        decided(outcomes) is Ok,
    ensures
        exists|i: int|
            0 <= i < outcomes.len() && #[trigger] outcomes[i] == Ok::<
                Option<TargetView>,
                BranchSnippetError,
            >(Some(decided(outcomes)->Ok_0)) && forall|j: int|
                0 <= j < outcomes.len() && j != i ==> !holds_snippet(#[trigger] outcomes[j]),
        forall|j: int|
            0 <= j < outcomes.len() ==> #[trigger] outcomes[j] != Err::<
                Option<TargetView>,
                BranchSnippetError,
            >(BranchSnippetError::AmbiguousMatch),
{
    lemma_targets_come_from_outcomes(outcomes);
    let i = choose|i: int|
        0 <= i < outcomes.len() && #[trigger] outcomes[i] == Ok::<
            Option<TargetView>,
            BranchSnippetError,
        >(Some(targets(outcomes)[0])) && forall|j: int|
            0 <= j < outcomes.len() && j != i ==> !(#[trigger] outcomes[j] matches Ok(Some(_)));
    assert forall|j: int| 0 <= j < outcomes.len() && j != i implies !holds_snippet(
        #[trigger] outcomes[j],
    ) by {
        if holds_snippet(outcomes[j]) {
            if i < j {
                lemma_matches_count(outcomes, i, j);
            } else {
                lemma_matches_count(outcomes, j, i);
            }
        }
    }
}

/// The fork point of the latest response names it as the latest, and that of any other one
/// names it by its index; where the branch came from is always named by the index.
pub proof fn law_fork_points_name_their_response(
    response: responses::ResponseView,
    is_latest: bool,
    latest: Option<Seq<char>>,
    candidates: Seq<Seq<char>>,
)
    requires
        outcome(response, is_latest, latest, candidates) matches Ok(Some(_)),
        0 <= response.index <= u32::MAX,
    ensures
        ({
            let target = outcome(response, is_latest, latest, candidates)->Ok_0->0;
            &&& is_latest <==> target.snapshot is LatestAssistantReadAnchor
            &&& !is_latest <==> target.snapshot is AssistantReadAnchor
            &&& target.origin_snapshot is AssistantReadAnchor
            &&& target.origin_snapshot->assistant_message_index == response.index
        }),
{
}

proof fn lemma_single_outcome(
    outcomes: Seq<Result<Option<TargetView>, BranchSnippetError>>,
    i: int,
)
    requires
        forall|j: int|
            0 <= j < outcomes.len() && j != i ==> #[trigger] outcomes[j] == Ok::<
                Option<TargetView>,
                BranchSnippetError,
            >(None),
    ensures
        0 <= i < outcomes.len() && holds_snippet(outcomes[i]) ==> matches_in(outcomes) == 1,
        !(0 <= i < outcomes.len() && holds_snippet(outcomes[i])) ==> matches_in(outcomes) == 0,
        match outcomes[i] {
            Ok(Some(target)) if 0 <= i < outcomes.len() => targets(outcomes) == seq![target],
            _ => targets(outcomes).len() == 0,
        },
    decreases outcomes.len(),
{
    if outcomes.len() > 0 {
        let head = outcomes.drop_last();
        assert forall|j: int| 0 <= j < head.len() implies #[trigger] head[j] == outcomes[j] by {}
        if i == outcomes.len() - 1 {
            assert forall|j: int| 0 <= j < head.len() && j != -1 implies #[trigger] head[j] == Ok::<
                Option<TargetView>,
                BranchSnippetError,
            >(None) by {
                assert(head[j] == outcomes[j]);
            }
            lemma_single_outcome(head, -1);
            if let Ok(Some(target)) = outcomes[i] {
                assert(targets(outcomes) =~= seq![target]);
            }
        } else {
            lemma_single_outcome(head, i);
            assert(outcomes.last() == outcomes[outcomes.len() - 1]);
        }
    }
}

/// Where at most one response has anything to say of a snippet, it decides: its target is
/// taken, its refusal is passed on, and without either the snippet was not found.
pub proof fn law_the_only_outcome_decides(
    outcomes: Seq<Result<Option<TargetView>, BranchSnippetError>>,
    i: int,
)
    requires
        0 <= i < outcomes.len(),
        forall|j: int|
            0 <= j < outcomes.len() && j != i ==> #[trigger] outcomes[j] == Ok::<
                Option<TargetView>,
                BranchSnippetError,
            >(None),
    ensures
        match outcomes[i] {
            Ok(Some(target)) => decided(outcomes) == Ok::<TargetView, BranchSnippetError>(target),
            Ok(None) => decided(outcomes) == Err::<TargetView, BranchSnippetError>(
                BranchSnippetError::NoMatch,
            ),
            Err(BranchSnippetError::AmbiguousMatch) => decided(outcomes) == Err::<
                TargetView,
                BranchSnippetError,
            >(BranchSnippetError::AmbiguousMatch),
            Err(BranchSnippetError::NoAnchor) => decided(outcomes) == Err::<
                TargetView,
                BranchSnippetError,
            >(BranchSnippetError::NoAnchor),
            _ => true,
        },
{
    lemma_single_outcome(outcomes, i);
    assert(outcomes[i] == outcomes[i]);
}

/// A snippet that matches twice within one response is ambiguous, whatever the others hold.
pub proof fn law_one_ambiguous_response_is_enough(
    outcomes: Seq<Result<Option<TargetView>, BranchSnippetError>>,
    i: int,
)
    requires
        0 <= i < outcomes.len(),
        outcomes[i] == Err::<Option<TargetView>, BranchSnippetError>(
            BranchSnippetError::AmbiguousMatch,
        ),
    ensures
        decided(outcomes) == Err::<TargetView, BranchSnippetError>(
            BranchSnippetError::AmbiguousMatch,
        ),
{
}

/// A response has a target exactly where one reading of the snippet matches once and the
/// match has an anchor. A snippet that matches nowhere is no error of the response, one that
/// matches more than once is ambiguous, and one without an anchor is refused for that.
pub proof fn law_outcome_follows_the_match(
    response: responses::ResponseView,
    is_latest: bool,
    latest: Option<Seq<char>>,
    candidates: Seq<Seq<char>>,
)
    ensures
        ({
            let lines = responses::lines_to_search(response, latest, is_latest);
            let found = snippet::first_single_match(normalized::normal_text(lines), candidates);
            let result = outcome(response, is_latest, latest, candidates);
            &&& found == Err::<(int, int), BranchSnippetError>(BranchSnippetError::NoMatch)
                <==> result == Ok::<Option<TargetView>, BranchSnippetError>(None)
            &&& found == Err::<(int, int), BranchSnippetError>(BranchSnippetError::AmbiguousMatch)
                <==> result == Err::<Option<TargetView>, BranchSnippetError>(
                BranchSnippetError::AmbiguousMatch,
            )
            &&& found is Ok <==> holds_snippet(result)
            &&& found is Ok && responses::raw_markdown(response, latest, is_latest) is None
                ==> result == Err::<Option<TargetView>, BranchSnippetError>(
                BranchSnippetError::NoAnchor,
            )
        }),
{
    let lines = responses::lines_to_search(response, latest, is_latest);
    lemma_match_errors(normalized::normal_text(lines), candidates);
}

/// What a target says of its selection: the words of the snippet as it was given, the first
/// words of the paragraph or list item in which the match starts, and the last words of that
/// paragraph or list item.
pub proof fn law_targets_describe_the_selection(
    response: responses::ResponseView,
    is_latest: bool,
    latest: Option<Seq<char>>,
    candidates: Seq<Seq<char>>,
)
    ensures
        ({
            let lines = responses::lines_to_search(response, latest, is_latest);
            let found = snippet::first_single_match(normalized::normal_text(lines), candidates);
            outcome(response, is_latest, latest, candidates) matches Ok(Some(target)) ==> {
                let line = normalized::normal_marks(lines)[found->Ok_0.0].line;
                let first = structure::structure_start(lines, line);
                let words = strings::words(candidates[0]);
                &&& found is Ok
                &&& target.anchor_head_summary == structure::head_summary(lines, first)
                &&& target.anchor_tail_summary == structure::line_tail_summary(
                    lines,
                    structure::structure_end(lines, first),
                )
                &&& words.len() > 0 ==> target.selection_summary == Some(
                    strings::joined(words, seq![' ']),
                )
                &&& words.len() == 0 ==> target.selection_summary is None
            }
        }),
{
}

/// Markdown that is searched alone gives the fork point that it gives as the latest response
/// of a conversation, and names it as the place where the branch came from.
pub proof fn law_markdown_alone_gives_the_same_point(
    response: responses::ResponseView,
    source: Seq<char>,
    candidates: Seq<Seq<char>>,
)
    requires
        !strings::blank(source),
        response.source_segments is None,
    ensures
        match (
            markdown_outcome(source, candidates),
            outcome(response, true, Some(source), candidates),
        ) {
            (Ok(alone), Ok(Some(target))) => {
                &&& alone.snapshot == target.snapshot
                &&& alone.origin_snapshot == alone.snapshot
                &&& alone.selection_summary == target.selection_summary
                &&& alone.anchor_head_summary == target.anchor_head_summary
                &&& alone.anchor_tail_summary == target.anchor_tail_summary
            },
            (Err(BranchSnippetError::NoMatch), Ok(None)) => true,
            (Err(alone), Err(error)) => alone == error,
            _ => false,
        },
{
    responses::law_latest_markdown_comes_first(response, None, source);
    let lines = responses::search_lines(source);
    lemma_match_errors(normalized::normal_text(lines), candidates);
}

} // verus!
