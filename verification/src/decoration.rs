//! Showing the lines of a reply with the markers of its child branches.
use crate::agent_markers;
use crate::agent_markers::{
    marker_block_lines, AgentDisplayLine, AgentDisplayLineKind,
};
use crate::history_cell;
use crate::history_cell::{AgentBranchMarker, HyperlinkLine};
use crate::line_split;
use crate::line_split::{
    split_line_at_byte_offset, split_offset_after_anchor, trim_hyperlink_line_leading_spaces,
};
use crate::ranking;
use crate::ranking::{sort_ranked, Ranked};
use crate::strings;
use crate::styled;
use crate::styled::{line_is_empty, line_plain_text, Line, Style};
use crate::text;
use vstd::prelude::*;
use vstd::string::*;

verus! {

// ---------------------------------------------------------------------------
// Hyperlinks
// ---------------------------------------------------------------------------
/// Whether a mapping of hyperlinks takes all lines and computes a function of them.
pub open spec fn remaps_as<R: Fn(&HyperlinkLine, Vec<Line>) -> Vec<HyperlinkLine>>(
    remap: R,
    model: spec_fn(history_cell::HyperlinkLineView, Seq<styled::LineView>) -> Seq<
        history_cell::HyperlinkLineView,
    >,
) -> bool {
    &&& forall|line: &HyperlinkLine, parts: Vec<Line>| call_requires(remap, (line, parts))
    &&& forall|line: &HyperlinkLine, parts: Vec<Line>, mapped: Vec<HyperlinkLine>| #[trigger]
        call_ensures(remap, (line, parts), mapped) ==> history_cell::hyperlink_views(mapped@)
            == model(line@, styled::line_views(parts@))
}

/// Whether a mapping of hyperlinks takes all lines and computes some function of them.
pub open spec fn is_remapping<R: Fn(&HyperlinkLine, Vec<Line>) -> Vec<HyperlinkLine>>(
    remap: R,
) -> bool {
    exists|
        model: spec_fn(history_cell::HyperlinkLineView, Seq<styled::LineView>) -> Seq<
            history_cell::HyperlinkLineView,
        >,
    |
        remaps_as(remap, model)
}

/// A part of a line with the hyperlinks that fall to it; nothing where none is mapped.
pub open spec fn relinked(
    line: history_cell::HyperlinkLineView,
    part: styled::LineView,
    model: spec_fn(history_cell::HyperlinkLineView, Seq<styled::LineView>) -> Seq<
        history_cell::HyperlinkLineView,
    >,
) -> history_cell::HyperlinkLineView {
    let mapped = model(line, seq![part]);
    if mapped.len() > 0 {
        mapped[0]
    } else {
        history_cell::unlinked(
            styled::LineView {
                spans: Seq::<styled::SpanView>::empty(),
                style: styled::no_style(),
            },
        )
    }
}

/// The two parts of a line before and behind a byte offset, with their hyperlinks.
pub open spec fn split_linked(
    line: history_cell::HyperlinkLineView,
    at: int,
    model: spec_fn(history_cell::HyperlinkLineView, Seq<styled::LineView>) -> Seq<
        history_cell::HyperlinkLineView,
    >,
) -> (history_cell::HyperlinkLineView, history_cell::HyperlinkLineView) {
    let (left, right) = line_split::split_line(line.line, at);
    (relinked(line, left, model), relinked(line, right, model))
}

/// A part of a line with the hyperlinks that fall to it.
fn relink<R: Fn(&HyperlinkLine, Vec<Line>) -> Vec<HyperlinkLine>>(
    line: &HyperlinkLine,
    part: Line,
    remap_wrapped_line: &R,
) -> (linked: HyperlinkLine)
    requires
        is_remapping(*remap_wrapped_line),
    ensures
        forall|
            model: spec_fn(history_cell::HyperlinkLineView, Seq<styled::LineView>) -> Seq<
                history_cell::HyperlinkLineView,
            >,
        | #[trigger]
            remaps_as(*remap_wrapped_line, model) ==> linked@ == relinked(line@, part@, model),
{
    let ghost own = part@;
    let mut parts: Vec<Line> = Vec::new();
    parts.push(part);
    assert(styled::line_views(parts@) =~= seq![own]);
    let mapped = remap_wrapped_line(line, parts);
    assert(history_cell::hyperlink_views(mapped@).len() == mapped@.len());
    if mapped.len() > 0 {
        let linked = mapped[0].copy();
        assert(linked@ == history_cell::hyperlink_views(mapped@)[0]);
        linked
    } else {
        let linked = HyperlinkLine::new(Line::of_spans(Vec::new(), Style::plain()));
        assert(linked@.line.spans =~= Seq::<styled::SpanView>::empty());
        linked
    }
}

/// The two parts of a line before and behind a byte offset, with their hyperlinks.
pub fn split_hyperlink_line_at_byte_offset<
    R: Fn(&HyperlinkLine, Vec<Line>) -> Vec<HyperlinkLine>,
>(line: &HyperlinkLine, split_at: usize, remap_wrapped_line: &R) -> (parts: (
    HyperlinkLine,
    HyperlinkLine,
))
    requires
        is_remapping(*remap_wrapped_line),
    ensures
        forall|
            model: spec_fn(history_cell::HyperlinkLineView, Seq<styled::LineView>) -> Seq<
                history_cell::HyperlinkLineView,
            >,
        | #[trigger]
            remaps_as(*remap_wrapped_line, model) ==> (parts.0@, parts.1@) == split_linked(
                line@,
                split_at as int,
                model,
            ),
{
    let (left, right) = split_line_at_byte_offset(&line.line, split_at);
    let left = relink(line, left, remap_wrapped_line);
    let right = relink(line, right, remap_wrapped_line);
    (left, right)
}

// ---------------------------------------------------------------------------
// One line
// ---------------------------------------------------------------------------
/// Markers in groups of neighbours with the same byte offset.
pub open spec fn grouped(markers: Seq<AgentBranchMarker>) -> Seq<Seq<AgentBranchMarker>>
    decreases markers.len(),
{
    if markers.len() == 0 {
        Seq::<Seq<AgentBranchMarker>>::empty()
    } else {
        let head = grouped(markers.drop_last());
        let marker = markers.last();
        if markers.len() >= 2 && markers[markers.len() - 2].source_byte_offset
            == marker.source_byte_offset {
            head.drop_last().push(head.last().push(marker))
        } else {
            head.push(seq![marker])
        }
    }
}

/// A line of the message, whatever it holds.
pub open spec fn message_line(
    line: history_cell::HyperlinkLineView,
    use_agent_bullet: bool,
) -> agent_markers::DisplayView {
    agent_markers::DisplayView { line, kind: AgentDisplayLineKind::Message { use_agent_bullet } }
}

/// A line of the message, where it holds text.
pub open spec fn shown_if_visible(
    line: history_cell::HyperlinkLineView,
    use_agent_bullet: bool,
) -> Seq<agent_markers::DisplayView> {
    if styled::plain(line.line).len() == 0 {
        Seq::<agent_markers::DisplayView>::empty()
    } else {
        seq![message_line(line, use_agent_bullet)]
    }
}

/// The number of bytes up to a split that are still to come, where some were consumed.
pub open spec fn still_to_come(split: int, consumed: int) -> int {
    if consumed <= split {
        split - consumed
    } else {
        0
    }
}

/// What is left of a line with groups of markers: up to the split of the first group, its
/// block, and what is left behind it without the leading spaces.
pub open spec fn decorated_rest(
    whole: Seq<char>,
    rest: history_cell::HyperlinkLineView,
    consumed: int,
    groups: Seq<Seq<AgentBranchMarker>>,
    bullet: bool,
    style: Style,
    truncation: spec_fn(Seq<char>, int) -> Seq<char>,
    remapping: spec_fn(history_cell::HyperlinkLineView, Seq<styled::LineView>) -> Seq<
        history_cell::HyperlinkLineView,
    >,
) -> Seq<agent_markers::DisplayView>
    decreases groups.len(),
{
    if groups.len() == 0 {
        shown_if_visible(rest, false)
    } else {
        let split = text::char_end(whole, groups[0][0].source_byte_offset as int);
        let (prefix, suffix) = split_linked(rest, still_to_come(split, consumed), remapping);
        shown_if_visible(prefix, bullet && consumed == 0) + agent_markers::marker_block(
            groups[0],
            style,
            truncation,
        ) + decorated_rest(
            whole,
            line_split::line_without_leading_spaces(suffix),
            split,
            groups.skip(1),
            bullet,
            style,
            truncation,
            remapping,
        )
    }
}

/// A line with its markers.
pub open spec fn decorated(
    line: history_cell::HyperlinkLineView,
    markers: Seq<AgentBranchMarker>,
    bullet: bool,
    style: Style,
    truncation: spec_fn(Seq<char>, int) -> Seq<char>,
    remapping: spec_fn(history_cell::HyperlinkLineView, Seq<styled::LineView>) -> Seq<
        history_cell::HyperlinkLineView,
    >,
) -> Seq<agent_markers::DisplayView> {
    decorated_rest(
        styled::plain(line.line),
        line,
        0,
        grouped(markers),
        bullet,
        style,
        truncation,
        remapping,
    )
}

/// The sequences in lists.
pub open spec fn group_views(groups: Seq<Vec<AgentBranchMarker>>) -> Seq<Seq<AgentBranchMarker>> {
    Seq::new(groups.len(), |i: int| groups[i]@)
}

proof fn lemma_grouped(markers: Seq<AgentBranchMarker>)
    ensures
        markers.len() > 0 ==> grouped(markers).len() > 0,
        forall|i: int| 0 <= i < grouped(markers).len() ==> (#[trigger] grouped(markers)[i]).len() > 0,
        markers.len() > 0 ==> grouped(markers).last()[0].source_byte_offset
            == markers.last().source_byte_offset,
    decreases markers.len(),
{
    if markers.len() > 0 {
        let head = markers.drop_last();
        lemma_grouped(head);
        assert forall|i: int| 0 <= i < grouped(markers).len() implies (
        #[trigger] grouped(markers)[i]).len() > 0 by {
            if i < grouped(head).len() {
                assert(grouped(head)[i].len() > 0);
            }
        }
    }
}

/// Markers in groups of neighbours with the same byte offset.
fn group_markers(markers: &[AgentBranchMarker]) -> (groups: Vec<Vec<AgentBranchMarker>>)
    ensures
        group_views(groups@) == grouped(markers@),
        forall|i: int| 0 <= i < groups@.len() ==> (#[trigger] groups@[i])@.len() > 0,
{
    let mut groups: Vec<Vec<AgentBranchMarker>> = Vec::new();
    let mut index: usize = 0;
    assert(markers@.take(0) =~= Seq::<AgentBranchMarker>::empty());
    assert(group_views(groups@) =~= grouped(markers@.take(0)));
    while index < markers.len()
        invariant
            index <= markers@.len(),
            group_views(groups@) == grouped(markers@.take(index as int)),
        decreases markers@.len() - index,
    {
        let marker = markers[index].copy();
        let ghost head = markers@.take(index as int);
        let ghost taken = markers@.take(index as int + 1);
        let ghost before = group_views(groups@);
        proof {
            lemma_grouped(head);
            assert(taken.drop_last() =~= head);
            assert(taken.last() == marker);
            assert(groups@.len() == before.len());
        }
        let joins = index > 0 && markers[index - 1].source_byte_offset
            == marker.source_byte_offset;
        if joins {
            assert(taken[taken.len() - 2] == markers@[index - 1]);
            let mut group = match groups.pop() {
                Some(group) => group,
                None => Vec::new(),
            };
            let ghost old_group = group@;
            assert(old_group == before.last());
            assert(group_views(groups@) =~= before.drop_last());
            group.push(marker);
            let ghost new_group = group@;
            groups.push(group);
            assert(group_views(groups@) =~= before.drop_last().push(new_group));
        } else {
            assert(taken.len() >= 2 ==> taken[taken.len() - 2] == markers@[index - 1]);
            let mut group: Vec<AgentBranchMarker> = Vec::new();
            group.push(marker);
            assert(group@ =~= seq![marker]);
            groups.push(group);
            assert(group_views(groups@) =~= before.push(seq![marker]));
        }
        index = index + 1;
    }
    proof {
        assert(markers@.take(markers@.len() as int) =~= markers@);
        lemma_grouped(markers@);
        assert forall|i: int| 0 <= i < groups@.len() implies (#[trigger] groups@[i])@.len() > 0 by {
            assert(group_views(groups@)[i] == groups@[i]@);
        }
    }
    groups
}

/// Whether the lines so far, with what is left of a line and of its groups, are the line
/// with its markers.
#[verifier::opaque]
spec fn decorates<
    T: Fn(&str, usize) -> String,
    R: Fn(&HyperlinkLine, Vec<Line>) -> Vec<HyperlinkLine>,
>(
    truncate: T,
    remap: R,
    line: history_cell::HyperlinkLineView,
    markers: Seq<AgentBranchMarker>,
    bullet: bool,
    style: Style,
    output: Seq<agent_markers::DisplayView>,
    rest: history_cell::HyperlinkLineView,
    consumed: int,
    groups: Seq<Seq<AgentBranchMarker>>,
) -> bool {
    forall|
        truncation: spec_fn(Seq<char>, int) -> Seq<char>,
        remapping: spec_fn(history_cell::HyperlinkLineView, Seq<styled::LineView>) -> Seq<
            history_cell::HyperlinkLineView,
        >,
    | #[trigger]
        styled::truncates_as(truncate, truncation) && #[trigger] remaps_as(remap, remapping)
            ==> decorated(line, markers, bullet, style, truncation, remapping) == output
            + decorated_rest(
            styled::plain(line.line),
            rest,
            consumed,
            groups,
            bullet,
            style,
            truncation,
            remapping,
        )
}

proof fn lemma_decorate_start<
    T: Fn(&str, usize) -> String,
    R: Fn(&HyperlinkLine, Vec<Line>) -> Vec<HyperlinkLine>,
>(
    truncate: T,
    remap: R,
    line: history_cell::HyperlinkLineView,
    markers: Seq<AgentBranchMarker>,
    bullet: bool,
    style: Style,
)
    ensures
        decorates(
            truncate,
            remap,
            line,
            markers,
            bullet,
            style,
            Seq::<agent_markers::DisplayView>::empty(),
            line,
            0,
            grouped(markers),
        ),
{
    reveal(decorates);
    let nothing = Seq::<agent_markers::DisplayView>::empty();
    assert forall|
        truncation: spec_fn(Seq<char>, int) -> Seq<char>,
        remapping: spec_fn(history_cell::HyperlinkLineView, Seq<styled::LineView>) -> Seq<
            history_cell::HyperlinkLineView,
        >,
    | #[trigger]
        styled::truncates_as(truncate, truncation) && #[trigger] remaps_as(
            remap,
            remapping,
        ) implies decorated(line, markers, bullet, style, truncation, remapping) == nothing
        + decorated_rest(
        styled::plain(line.line),
        line,
        0,
        grouped(markers),
        bullet,
        style,
        truncation,
        remapping,
    ) by {
        let all = decorated(line, markers, bullet, style, truncation, remapping);
        assert(nothing + all =~= all);
    }
}

proof fn lemma_decorate_step<
    T: Fn(&str, usize) -> String,
    R: Fn(&HyperlinkLine, Vec<Line>) -> Vec<HyperlinkLine>,
>(
    truncate: T,
    remap: R,
    line: history_cell::HyperlinkLineView,
    markers: Seq<AgentBranchMarker>,
    bullet: bool,
    style: Style,
    output: Seq<agent_markers::DisplayView>,
    rest: history_cell::HyperlinkLineView,
    consumed: int,
    groups: Seq<Seq<AgentBranchMarker>>,
    split: int,
    prefix: history_cell::HyperlinkLineView,
    suffix: history_cell::HyperlinkLineView,
    block: Seq<agent_markers::DisplayView>,
)
    requires
        groups.len() > 0,
        split == text::char_end(
            styled::plain(line.line),
            groups[0][0].source_byte_offset as int,
        ),
        decorates(
            truncate,
            remap,
            line,
            markers,
            bullet,
            style,
            output,
            rest,
            consumed,
            groups,
        ),
        forall|truncation: spec_fn(Seq<char>, int) -> Seq<char>| #[trigger]
            styled::truncates_as(truncate, truncation) ==> block == agent_markers::marker_block(
                groups[0],
                style,
                truncation,
            ),
        forall|
            remapping: spec_fn(history_cell::HyperlinkLineView, Seq<styled::LineView>) -> Seq<
                history_cell::HyperlinkLineView,
            >,
        | #[trigger]
            remaps_as(remap, remapping) ==> (prefix, suffix) == split_linked(
                rest,
                still_to_come(split, consumed),
                remapping,
            ),
    ensures
        decorates(
            truncate,
            remap,
            line,
            markers,
            bullet,
            style,
            output + shown_if_visible(prefix, bullet && consumed == 0) + block,
            line_split::line_without_leading_spaces(suffix),
            split,
            groups.skip(1),
        ),
{
    reveal(decorates);
    let shown = shown_if_visible(prefix, bullet && consumed == 0);
    let trimmed = line_split::line_without_leading_spaces(suffix);
    assert forall|
        truncation: spec_fn(Seq<char>, int) -> Seq<char>,
        remapping: spec_fn(history_cell::HyperlinkLineView, Seq<styled::LineView>) -> Seq<
            history_cell::HyperlinkLineView,
        >,
    | #[trigger]
        styled::truncates_as(truncate, truncation) && #[trigger] remaps_as(
            remap,
            remapping,
        ) implies decorated(line, markers, bullet, style, truncation, remapping) == output + shown
        + block + decorated_rest(
        styled::plain(line.line),
        trimmed,
        split,
        groups.skip(1),
        bullet,
        style,
        truncation,
        remapping,
    ) by {
        let behind = decorated_rest(
            styled::plain(line.line),
            trimmed,
            split,
            groups.skip(1),
            bullet,
            style,
            truncation,
            remapping,
        );
        assert(output + (shown + block + behind) =~= output + shown + block + behind);
    }
}

/// A line with its markers, which are in the order of their byte offsets.
pub fn decorate_line_with_branch_markers<
    T: Fn(&str, usize) -> String,
    R: Fn(&HyperlinkLine, Vec<Line>) -> Vec<HyperlinkLine>,
>(
    source_line_index: usize,
    is_first_line: bool,
    line: &HyperlinkLine,
    markers: &[AgentBranchMarker],
    block_style: Style,
    truncate_text: &T,
    remap_wrapped_line: &R,
) -> (output: Vec<AgentDisplayLine>)
    requires
        styled::is_truncation(*truncate_text),
        is_remapping(*remap_wrapped_line),
    ensures
        forall|
            truncation: spec_fn(Seq<char>, int) -> Seq<char>,
            remapping: spec_fn(history_cell::HyperlinkLineView, Seq<styled::LineView>) -> Seq<
                history_cell::HyperlinkLineView,
            >,
        | #[trigger]
            styled::truncates_as(*truncate_text, truncation) && #[trigger] remaps_as(
                *remap_wrapped_line,
                remapping,
            ) ==> agent_markers::display_views(output@) == decorated(
                line@,
                markers@,
                source_line_index == 0 && is_first_line,
                block_style,
                truncation,
                remapping,
            ),
{
    let groups = group_markers(markers);
    let ghost all = grouped(markers@);
    let whole = line_plain_text(&line.line);
    let bullet = source_line_index == 0 && is_first_line;
    let mut output: Vec<AgentDisplayLine> = Vec::new();
    let mut remainder = line.copy();
    let mut consumed_bytes: usize = 0;
    let mut index: usize = 0;
    proof {
        assert(all.skip(0) =~= all);
        assert(agent_markers::display_views(output@)
            =~= Seq::<agent_markers::DisplayView>::empty());
        lemma_decorate_start(
            *truncate_text,
            *remap_wrapped_line,
            line@,
            markers@,
            bullet,
            block_style,
        );
    }
    while index < groups.len()
        invariant
            index <= groups@.len(),
            styled::is_truncation(*truncate_text),
            is_remapping(*remap_wrapped_line),
            whole@ == styled::plain(line@.line),
            group_views(groups@) == all,
            forall|i: int| 0 <= i < groups@.len() ==> (#[trigger] groups@[i])@.len() > 0,
            decorates(
                *truncate_text,
                *remap_wrapped_line,
                line@,
                markers@,
                bullet,
                block_style,
                agent_markers::display_views(output@),
                remainder@,
                consumed_bytes as int,
                all.skip(index as int),
            ),
        decreases groups@.len() - index,
    {
        let group = &groups[index];
        let ghost tail = all.skip(index as int);
        let ghost old_output = agent_markers::display_views(output@);
        let ghost old_remainder = remainder@;
        let ghost old_consumed = consumed_bytes as int;
        assert(group_views(groups@)[index as int] == group@);
        assert(tail[0] == group@);
        let split_at: usize = match split_offset_after_anchor(
            whole.as_str(),
            group[0].source_byte_offset,
        ) {
            Some(split_at) => split_at,
            None => 0,
        };
        let relative_split_at: usize = if consumed_bytes <= split_at {
            split_at - consumed_bytes
        } else {
            0
        };
        let (prefix, suffix) = split_hyperlink_line_at_byte_offset(
            &remainder,
            relative_split_at,
            remap_wrapped_line,
        );
        let ghost shown = shown_if_visible(prefix@, bullet && consumed_bytes == 0);
        let ghost prefix_view = prefix@;
        if !line_is_empty(&prefix.line) {
            output.push(
                AgentDisplayLine {
                    line: prefix,
                    kind: AgentDisplayLineKind::Message {
                        use_agent_bullet: bullet && consumed_bytes == 0,
                    },
                },
            );
        }
        assert(agent_markers::display_views(output@) =~= old_output + shown);
        let mut block = marker_block_lines(group, block_style, truncate_text);
        let ghost block_views = agent_markers::display_views(block@);
        output.append(&mut block);
        assert(agent_markers::display_views(output@) =~= old_output + shown + block_views);
        remainder = trim_hyperlink_line_leading_spaces(&suffix);
        consumed_bytes = split_at;
        proof {
            lemma_decorate_step(
                *truncate_text,
                *remap_wrapped_line,
                line@,
                markers@,
                bullet,
                block_style,
                old_output,
                old_remainder,
                old_consumed,
                tail,
                split_at as int,
                prefix_view,
                suffix@,
                block_views,
            );
            assert(tail.skip(1) =~= all.skip(index as int + 1));
        }
        index = index + 1;
    }
    let ghost old_output = agent_markers::display_views(output@);
    let ghost shown = shown_if_visible(remainder@, false);
    proof {
        reveal(decorates);
        assert(all.len() == groups@.len());
        assert(all.skip(index as int).len() == 0);
    }
    if !line_is_empty(&remainder.line) {
        output.push(
            AgentDisplayLine {
                line: remainder,
                kind: AgentDisplayLineKind::Message { use_agent_bullet: false },
            },
        );
    }
    assert(agent_markers::display_views(output@) =~= old_output + shown);
    output
}

// ---------------------------------------------------------------------------
// All lines
// ---------------------------------------------------------------------------
/// The markers of a line.
pub open spec fn on_line(index: int) -> spec_fn(AgentBranchMarker) -> bool {
    |marker: AgentBranchMarker| marker.source_line_index == index
}

/// The lines of one line of a reply: with its markers, where it has any.
pub open spec fn shown_line(
    line: history_cell::HyperlinkLineView,
    index: int,
    is_first_line: bool,
    markers: Seq<AgentBranchMarker>,
    style: Style,
    truncation: spec_fn(Seq<char>, int) -> Seq<char>,
    remapping: spec_fn(history_cell::HyperlinkLineView, Seq<styled::LineView>) -> Seq<
        history_cell::HyperlinkLineView,
    >,
) -> Seq<agent_markers::DisplayView> {
    let own = ranking::ranked(markers.filter(on_line(index)));
    if own.len() == 0 {
        seq![message_line(line, index == 0 && is_first_line)]
    } else {
        decorated(line, own, index == 0 && is_first_line, style, truncation, remapping)
    }
}

/// The lines of a reply with its markers. A marker of a line that is not there is not
/// shown.
pub open spec fn shown_lines(
    lines: Seq<history_cell::HyperlinkLineView>,
    is_first_line: bool,
    markers: Seq<AgentBranchMarker>,
    style: Style,
    truncation: spec_fn(Seq<char>, int) -> Seq<char>,
    remapping: spec_fn(history_cell::HyperlinkLineView, Seq<styled::LineView>) -> Seq<
        history_cell::HyperlinkLineView,
    >,
) -> Seq<agent_markers::DisplayView>
    decreases lines.len(),
{
    if lines.len() == 0 {
        Seq::<agent_markers::DisplayView>::empty()
    } else {
        shown_lines(lines.drop_last(), is_first_line, markers, style, truncation, remapping)
            + shown_line(
            lines.last(),
            lines.len() - 1,
            is_first_line,
            markers,
            style,
            truncation,
            remapping,
        )
    }
}

/// The markers of a line, in their order.
fn markers_on_line(branch_markers: &[AgentBranchMarker], line_index: usize) -> (found: Vec<
    AgentBranchMarker,
>)
    ensures
        found@ == branch_markers@.filter(on_line(line_index as int)),
{
    let mut found: Vec<AgentBranchMarker> = Vec::new();
    let mut index: usize = 0;
    proof {
        reveal(Seq::filter);
        assert(branch_markers@.take(0) =~= Seq::<AgentBranchMarker>::empty());
    }
    while index < branch_markers.len()
        invariant
            index <= branch_markers@.len(),
            found@ == branch_markers@.take(index as int).filter(on_line(line_index as int)),
        decreases branch_markers@.len() - index,
    {
        proof {
            reveal(Seq::filter);
            let taken = branch_markers@.take(index as int + 1);
            assert(taken.drop_last() =~= branch_markers@.take(index as int));
            assert(taken.last() == branch_markers@[index as int]);
        }
        if branch_markers[index].source_line_index == line_index {
            found.push(branch_markers[index].copy());
        }
        index = index + 1;
    }
    assert(branch_markers@.take(branch_markers@.len() as int) =~= branch_markers@);
    found
}

/// The lines of a reply with its markers.
pub fn display_source_lines<
    T: Fn(&str, usize) -> String,
    R: Fn(&HyperlinkLine, Vec<Line>) -> Vec<HyperlinkLine>,
>(
    lines: &[HyperlinkLine],
    is_first_line: bool,
    branch_markers: &[AgentBranchMarker],
    block_style: Style,
    truncate_text: &T,
    remap_wrapped_line: &R,
) -> (output: Vec<AgentDisplayLine>)
    requires
        styled::is_truncation(*truncate_text),
        is_remapping(*remap_wrapped_line),
    ensures
        forall|
            truncation: spec_fn(Seq<char>, int) -> Seq<char>,
            remapping: spec_fn(history_cell::HyperlinkLineView, Seq<styled::LineView>) -> Seq<
                history_cell::HyperlinkLineView,
            >,
        | #[trigger]
            styled::truncates_as(*truncate_text, truncation) && #[trigger] remaps_as(
                *remap_wrapped_line,
                remapping,
            ) ==> agent_markers::display_views(output@) == shown_lines(
                history_cell::hyperlink_views(lines@),
                is_first_line,
                branch_markers@,
                block_style,
                truncation,
                remapping,
            ),
{
    let ghost all = history_cell::hyperlink_views(lines@);
    let mut output: Vec<AgentDisplayLine> = Vec::new();
    let mut line_index: usize = 0;
    assert(all.take(0) =~= Seq::<history_cell::HyperlinkLineView>::empty());
    assert(agent_markers::display_views(output@) =~= Seq::<agent_markers::DisplayView>::empty());
    while line_index < lines.len()
        invariant
            line_index <= lines@.len(),
            styled::is_truncation(*truncate_text),
            is_remapping(*remap_wrapped_line),
            all == history_cell::hyperlink_views(lines@),
            forall|
                truncation: spec_fn(Seq<char>, int) -> Seq<char>,
                remapping: spec_fn(history_cell::HyperlinkLineView, Seq<styled::LineView>) -> Seq<
                    history_cell::HyperlinkLineView,
                >,
            | #[trigger]
                styled::truncates_as(*truncate_text, truncation) && #[trigger] remaps_as(
                    *remap_wrapped_line,
                    remapping,
                ) ==> agent_markers::display_views(output@) == shown_lines(
                    all.take(line_index as int),
                    is_first_line,
                    branch_markers@,
                    block_style,
                    truncation,
                    remapping,
                ),
        decreases lines@.len() - line_index,
    {
        let line = &lines[line_index];
        let ghost before = agent_markers::display_views(output@);
        let ghost taken = all.take(line_index as int + 1);
        assert(taken.drop_last() =~= all.take(line_index as int));
        assert(taken.last() == line@);
        let mut line_markers = markers_on_line(branch_markers, line_index);
        sort_ranked(&mut line_markers);
        if line_markers.len() == 0 {
            let use_agent_bullet = line_index == 0 && is_first_line;
            let shown = AgentDisplayLine {
                line: line.copy(),
                kind: AgentDisplayLineKind::Message { use_agent_bullet },
            };
            let ghost added = shown@;
            output.push(shown);
            assert(agent_markers::display_views(output@) =~= before + seq![added]);
        } else {
            let mut decorated_lines = decorate_line_with_branch_markers(
                line_index,
                is_first_line,
                line,
                &line_markers,
                block_style,
                truncate_text,
                remap_wrapped_line,
            );
            let ghost added = agent_markers::display_views(decorated_lines@);
            output.append(&mut decorated_lines);
            assert(agent_markers::display_views(output@) =~= before + added);
        }
        line_index = line_index + 1;
    }
    assert(all.take(lines@.len() as int) =~= all);
    output
}

// ---------------------------------------------------------------------------
// What decorating keeps
// ---------------------------------------------------------------------------
/// Groups one after the other.
pub open spec fn flattened(groups: Seq<Seq<AgentBranchMarker>>) -> Seq<AgentBranchMarker>
    decreases groups.len(),
{
    if groups.len() == 0 {
        Seq::<AgentBranchMarker>::empty()
    } else {
        flattened(groups.drop_last()) + groups.last()
    }
}

/// Grouping keeps all markers in their order, and the markers of a group have the same
/// byte offset.
pub proof fn law_groups_keep_the_markers(markers: Seq<AgentBranchMarker>)
    ensures
        flattened(grouped(markers)) == markers,
        forall|i: int, j: int|
            0 <= i < grouped(markers).len() && 0 <= j < grouped(markers)[i].len() ==> (
            #[trigger] grouped(markers)[i][j]).source_byte_offset
                == grouped(markers)[i][0].source_byte_offset,
    decreases markers.len(),
{
    if markers.len() > 0 {
        let rest = markers.drop_last();
        let head = grouped(rest);
        let groups = grouped(markers);
        let marker = markers.last();
        law_groups_keep_the_markers(rest);
        lemma_grouped(rest);
        if markers.len() >= 2 && markers[markers.len() - 2].source_byte_offset
            == marker.source_byte_offset {
            assert(rest.last() == markers[markers.len() - 2]);
            assert(groups.drop_last() =~= head.drop_last());
            assert(flattened(groups) =~= flattened(head).push(marker));
        } else {
            assert(groups.drop_last() =~= head);
            assert(flattened(groups) =~= flattened(head).push(marker));
        }
        assert(markers =~= rest.push(marker));
        assert forall|i: int, j: int|
            0 <= i < groups.len() && 0 <= j < groups[i].len() implies (
        #[trigger] groups[i][j]).source_byte_offset == groups[i][0].source_byte_offset by {
            if i < head.len() && j < head[i].len() {
                assert(head[i][j].source_byte_offset == head[i][0].source_byte_offset);
            }
        }
    }
}

/// The text of the message in displayed lines.
pub open spec fn message_text(lines: Seq<agent_markers::DisplayView>) -> Seq<char>
    decreases lines.len(),
{
    if lines.len() == 0 {
        Seq::<char>::empty()
    } else {
        message_text(lines.drop_last()) + match lines.last().kind {
            AgentDisplayLineKind::Message { .. } => styled::plain(lines.last().line.line),
            AgentDisplayLineKind::BranchChrome => Seq::<char>::empty(),
        }
    }
}

/// Whether a mapping of hyperlinks keeps the lines themselves.
pub open spec fn keeps_lines(
    remapping: spec_fn(history_cell::HyperlinkLineView, Seq<styled::LineView>) -> Seq<
        history_cell::HyperlinkLineView,
    >,
) -> bool {
    forall|line: history_cell::HyperlinkLineView, part: styled::LineView| #[trigger]
        relinked(line, part, remapping).line == part
}

/// A text without its spaces.
pub open spec fn spaceless(content: Seq<char>) -> Seq<char> {
    strings::without_char(content, ' ')
}

proof fn lemma_spaceless_add(a: Seq<char>, b: Seq<char>)
    ensures
        spaceless(a + b) == spaceless(a) + spaceless(b),
    decreases b.len(),
{
    reveal(Seq::filter);
    if b.len() == 0 {
        assert(a + b =~= a);
        assert(spaceless(a) + spaceless(b) =~= spaceless(a));
    } else {
        lemma_spaceless_add(a, b.drop_last());
        assert((a + b).drop_last() =~= a + b.drop_last());
        assert((a + b).last() == b.last());
        assert(spaceless(a + b) =~= spaceless(a) + spaceless(b));
    }
}

proof fn lemma_spaceless_leading(content: Seq<char>)
    ensures
        spaceless(line_split::without_leading_spaces(content)) == spaceless(content),
    decreases content.len(),
{
    if content.len() > 0 && content[0] == ' ' {
        lemma_spaceless_leading(content.skip(1));
        let first = seq![content[0]];
        assert(content =~= first + content.skip(1));
        lemma_spaceless_add(first, content.skip(1));
        reveal(Seq::filter);
        assert(first.drop_last() =~= Seq::<char>::empty());
        assert(first.drop_last().filter(strings::other_than(' ')) =~= Seq::<char>::empty());
        assert(spaceless(first) =~= Seq::<char>::empty());
        assert(spaceless(first) + spaceless(content.skip(1)) =~= spaceless(content.skip(1)));
    }
}

proof fn lemma_message_text_add(
    a: Seq<agent_markers::DisplayView>,
    b: Seq<agent_markers::DisplayView>,
)
    ensures
        message_text(a + b) == message_text(a) + message_text(b),
    decreases b.len(),
{
    if b.len() == 0 {
        assert(a + b =~= a);
        assert(message_text(a) + message_text(b) =~= message_text(a));
    } else {
        lemma_message_text_add(a, b.drop_last());
        assert((a + b).drop_last() =~= a + b.drop_last());
        assert((a + b).last() == b.last());
        assert(message_text(a + b) =~= message_text(a) + message_text(b));
    }
}

proof fn lemma_chrome_has_no_text(lines: Seq<agent_markers::DisplayView>)
    requires
        forall|i: int| 0 <= i < lines.len() ==> (#[trigger] lines[i]).kind is BranchChrome,
    ensures
        message_text(lines).len() == 0,
    decreases lines.len(),
{
    if lines.len() > 0 {
        lemma_chrome_has_no_text(lines.drop_last());
        assert(lines[lines.len() - 1].kind is BranchChrome);
    }
}

proof fn lemma_shown_text(line: history_cell::HyperlinkLineView, bullet: bool)
    ensures
        message_text(shown_if_visible(line, bullet)) == styled::plain(line.line),
{
    let shown = shown_if_visible(line, bullet);
    if shown.len() > 0 {
        assert(shown.drop_last() =~= Seq::<agent_markers::DisplayView>::empty());
        reveal_with_fuel(message_text, 2);
        assert(message_text(shown) =~= styled::plain(line.line));
    } else {
        assert(message_text(shown) =~= styled::plain(line.line));
    }
}

proof fn lemma_rest_keeps_the_text(
    whole: Seq<char>,
    rest: history_cell::HyperlinkLineView,
    consumed: int,
    groups: Seq<Seq<AgentBranchMarker>>,
    bullet: bool,
    style: Style,
    truncation: spec_fn(Seq<char>, int) -> Seq<char>,
    remapping: spec_fn(history_cell::HyperlinkLineView, Seq<styled::LineView>) -> Seq<
        history_cell::HyperlinkLineView,
    >,
)
    requires
        keeps_lines(remapping),
        0 <= consumed,
    ensures
        spaceless(
            message_text(
                decorated_rest(
                    whole,
                    rest,
                    consumed,
                    groups,
                    bullet,
                    style,
                    truncation,
                    remapping,
                ),
            ),
        ) == spaceless(styled::plain(rest.line)),
    decreases groups.len(),
{
    if groups.len() == 0 {
        lemma_shown_text(rest, false);
    } else {
        let split = text::char_end(whole, groups[0][0].source_byte_offset as int);
        let at = still_to_come(split, consumed);
        let (prefix, suffix) = split_linked(rest, at, remapping);
        let (left, right) = line_split::split_line(rest.line, at);
        assert(relinked(rest, left, remapping).line == left);
        assert(relinked(rest, right, remapping).line == right);
        line_split::law_split_keeps_the_text(rest.line, at);
        let trimmed = line_split::line_without_leading_spaces(suffix);
        line_split::law_trimming_takes_leading_spaces(right.spans);
        lemma_spaceless_leading(styled::plain(right));
        lemma_spaceless_add(styled::plain(left), styled::plain(right));
        let shown = shown_if_visible(prefix, bullet && consumed == 0);
        let block = agent_markers::marker_block(groups[0], style, truncation);
        let behind = decorated_rest(
            whole,
            trimmed,
            split,
            groups.skip(1),
            bullet,
            style,
            truncation,
            remapping,
        );
        text::lemma_char_index(whole, groups[0][0].source_byte_offset as int);
        lemma_rest_keeps_the_text(
            whole,
            trimmed,
            split,
            groups.skip(1),
            bullet,
            style,
            truncation,
            remapping,
        );
        lemma_shown_text(prefix, bullet && consumed == 0);
        lemma_chrome_has_no_text(block);
        lemma_message_text_add(shown, block);
        lemma_message_text_add(shown + block, behind);
        assert(message_text(shown + block) =~= styled::plain(left));
        lemma_spaceless_add(styled::plain(left), message_text(behind));
    }
}

/// Showing a line with markers keeps its text but for spaces: nothing of the reply is lost,
/// added or put in another order.
pub proof fn law_decoration_keeps_the_text(
    line: history_cell::HyperlinkLineView,
    markers: Seq<AgentBranchMarker>,
    bullet: bool,
    style: Style,
    truncation: spec_fn(Seq<char>, int) -> Seq<char>,
    remapping: spec_fn(history_cell::HyperlinkLineView, Seq<styled::LineView>) -> Seq<
        history_cell::HyperlinkLineView,
    >,
)
    requires
        keeps_lines(remapping),
    ensures
        spaceless(message_text(decorated(line, markers, bullet, style, truncation, remapping)))
            == spaceless(styled::plain(line.line)),
{
    lemma_rest_keeps_the_text(
        styled::plain(line.line),
        line,
        0,
        grouped(markers),
        bullet,
        style,
        truncation,
        remapping,
    );
}

/// The texts of the lines of a reply, one after the other.
pub open spec fn reply_text(lines: Seq<history_cell::HyperlinkLineView>) -> Seq<char>
    decreases lines.len(),
{
    if lines.len() == 0 {
        Seq::<char>::empty()
    } else {
        reply_text(lines.drop_last()) + styled::plain(lines.last().line)
    }
}

/// Showing a reply with the markers of its child branches keeps its text but for spaces.
pub proof fn law_shown_reply_keeps_the_text(
    lines: Seq<history_cell::HyperlinkLineView>,
    is_first_line: bool,
    markers: Seq<AgentBranchMarker>,
    style: Style,
    truncation: spec_fn(Seq<char>, int) -> Seq<char>,
    remapping: spec_fn(history_cell::HyperlinkLineView, Seq<styled::LineView>) -> Seq<
        history_cell::HyperlinkLineView,
    >,
)
    requires
        keeps_lines(remapping),
    ensures
        spaceless(
            message_text(
                shown_lines(lines, is_first_line, markers, style, truncation, remapping),
            ),
        ) == spaceless(reply_text(lines)),
    decreases lines.len(),
{
    if lines.len() > 0 {
        let head = lines.drop_last();
        let line = lines.last();
        let index = lines.len() - 1;
        let bullet = index == 0 && is_first_line;
        let own = ranking::ranked(markers.filter(on_line(index)));
        let before = shown_lines(head, is_first_line, markers, style, truncation, remapping);
        let shown = shown_line(
            line,
            index,
            is_first_line,
            markers,
            style,
            truncation,
            remapping,
        );
        law_shown_reply_keeps_the_text(head, is_first_line, markers, style, truncation, remapping);
        if own.len() == 0 {
            assert(shown.drop_last() =~= Seq::<agent_markers::DisplayView>::empty());
            reveal_with_fuel(message_text, 2);
            assert(message_text(shown) =~= styled::plain(line.line));
        } else {
            law_decoration_keeps_the_text(line, own, bullet, style, truncation, remapping);
        }
        lemma_message_text_add(before, shown);
        lemma_spaceless_add(message_text(before), message_text(shown));
        lemma_spaceless_add(reply_text(head), styled::plain(line.line));
    }
}

// ---------------------------------------------------------------------------
// Where the markers stand
// ---------------------------------------------------------------------------
/// The markers of one place are in one group: no group is empty, neighbouring groups have
/// different places, and the groups start with the first marker and end with the last.
pub proof fn law_groups_have_different_places(markers: Seq<AgentBranchMarker>)
    requires
        markers.len() > 0,
    ensures
        grouped(markers).len() > 0,
        forall|i: int| 0 <= i < grouped(markers).len() ==> (#[trigger] grouped(markers)[i]).len() > 0,
        grouped(markers)[0][0] == markers[0],
        grouped(markers).last().last() == markers.last(),
        forall|i: int, j: int|
            #![trigger grouped(markers)[i], grouped(markers)[j]]
            0 <= i && j == i + 1 && j < grouped(markers).len()
                ==> grouped(markers)[i].last().source_byte_offset
                != grouped(markers)[j][0].source_byte_offset,
    decreases markers.len(),
{
    let head = grouped(markers.drop_last());
    let groups = grouped(markers);
    if markers.len() == 1 {
        assert(markers.drop_last() =~= Seq::<AgentBranchMarker>::empty());
        assert(head =~= Seq::<Seq<AgentBranchMarker>>::empty());
        assert(groups =~= seq![seq![markers[0]]]);
    } else {
        law_groups_have_different_places(markers.drop_last());
        assert(markers.drop_last().last() == markers[markers.len() - 2]);
        assert(head[head.len() - 1] == head.last());
        assert forall|i: int, j: int|
            #![trigger groups[i], groups[j]]
            0 <= i && j == i + 1 && j < groups.len() implies groups[i].last().source_byte_offset
            != groups[j][0].source_byte_offset by {
            assert(groups[i] == head[i]);
            if j < head.len() {
                assert(head[i].last().source_byte_offset != head[j][0].source_byte_offset);
                assert(groups[j][0] == head[j][0]);
            }
        }
        assert forall|i: int| 0 <= i < groups.len() implies (#[trigger] groups[i]).len() > 0 by {
            if i < head.len() {
                assert(head[i].len() > 0);
            }
        }
    }
}

proof fn lemma_start_with_length(whole: Seq<char>, start: Seq<char>, count: int)
    requires
        start.is_prefix_of(whole),
        0 <= count <= whole.len(),
        text::byte_len(start) == text::byte_pos(whole, count),
    ensures
        start == whole.take(count),
{
    assert(whole.take(start.len() as int) =~= start);
    if start.len() < count {
        text::lemma_byte_pos_grows(whole, start.len() as int, count);
    } else if start.len() > count {
        text::lemma_byte_pos_grows(whole, count, start.len() as int);
    }
}

/// The first markers of a line stand right behind the character under them: before them stands
/// the line up to and with that character, as a line of the message, and they follow in a
/// block.
pub proof fn law_first_markers_stand_behind_their_character(
    line: history_cell::HyperlinkLineView,
    markers: Seq<AgentBranchMarker>,
    bullet: bool,
    style: Style,
    truncation: spec_fn(Seq<char>, int) -> Seq<char>,
    remapping: spec_fn(history_cell::HyperlinkLineView, Seq<styled::LineView>) -> Seq<
        history_cell::HyperlinkLineView,
    >,
    at: int,
)
    requires
        keeps_lines(remapping),
        markers.len() > 0,
        0 <= at < styled::plain(line.line).len(),
        text::byte_pos(styled::plain(line.line), at) <= markers[0].source_byte_offset
            < text::byte_pos(styled::plain(line.line), at + 1),
    ensures
        ({
            let shown = decorated(line, markers, bullet, style, truncation, remapping);
            let block = agent_markers::marker_block(grouped(markers)[0], style, truncation);
            &&& shown.len() >= 1 + block.len()
            &&& shown[0].kind == (AgentDisplayLineKind::Message { use_agent_bullet: bullet })
            &&& styled::plain(shown[0].line.line) == styled::plain(line.line).take(at + 1)
            &&& shown.subrange(1, block.len() as int + 1) == block
        }),
{
    let whole = styled::plain(line.line);
    let groups = grouped(markers);
    law_groups_have_different_places(markers);
    let offset = markers[0].source_byte_offset as int;
    text::lemma_char_index_unique(whole, offset, at);
    let split = text::char_end(whole, offset);
    assert(split == text::byte_pos(whole, at + 1));
    assert(still_to_come(split, 0) == split);
    let (left, right) = line_split::split_line(line.line, split);
    line_split::law_split_keeps_the_text(line.line, split);
    text::lemma_char_index_of_pos(whole, at + 1);
    assert(text::ceil_boundary(whole, split) == split);
    assert(styled::plain(left).is_prefix_of(whole)) by {
        assert(styled::plain(left) =~= whole.subrange(0, styled::plain(left).len() as int));
    }
    lemma_start_with_length(whole, styled::plain(left), at + 1);
    let (prefix, suffix) = split_linked(line, split, remapping);
    assert(prefix == relinked(line, left, remapping));
    assert(prefix.line == left);
    let first = shown_if_visible(prefix, bullet && true);
    assert(first == seq![message_line(prefix, bullet)]);
    let block = agent_markers::marker_block(groups[0], style, truncation);
    let rest = decorated_rest(
        whole,
        line_split::line_without_leading_spaces(suffix),
        split,
        groups.skip(1),
        bullet,
        style,
        truncation,
        remapping,
    );
    let shown = decorated(line, markers, bullet, style, truncation, remapping);
    assert(shown == first + block + rest);
    assert(shown.subrange(1, block.len() as int + 1) =~= block);
}

proof fn lemma_no_bullet(
    whole: Seq<char>,
    rest: history_cell::HyperlinkLineView,
    consumed: int,
    groups: Seq<Seq<AgentBranchMarker>>,
    style: Style,
    truncation: spec_fn(Seq<char>, int) -> Seq<char>,
    remapping: spec_fn(history_cell::HyperlinkLineView, Seq<styled::LineView>) -> Seq<
        history_cell::HyperlinkLineView,
    >,
)
    ensures
        ({
            let shown = decorated_rest(
                whole,
                rest,
                consumed,
                groups,
                false,
                style,
                truncation,
                remapping,
            );
            forall|i: int|
                0 <= i < shown.len() ==> (#[trigger] shown[i]).kind
                    != (AgentDisplayLineKind::Message { use_agent_bullet: true })
        }),
    decreases groups.len(),
{
    if groups.len() > 0 {
        let split = text::char_end(whole, groups[0][0].source_byte_offset as int);
        let (prefix, suffix) = split_linked(rest, still_to_come(split, consumed), remapping);
        lemma_no_bullet(
            whole,
            line_split::line_without_leading_spaces(suffix),
            split,
            groups.skip(1),
            style,
            truncation,
            remapping,
        );
    }
}

/// Only the first line of a reply can start with the bullet of the assistant: no other line
/// has one, with or without markers, and a reply that goes on has none.
pub proof fn law_only_first_lines_have_a_bullet(
    line: history_cell::HyperlinkLineView,
    index: int,
    is_first_line: bool,
    markers: Seq<AgentBranchMarker>,
    style: Style,
    truncation: spec_fn(Seq<char>, int) -> Seq<char>,
    remapping: spec_fn(history_cell::HyperlinkLineView, Seq<styled::LineView>) -> Seq<
        history_cell::HyperlinkLineView,
    >,
    i: int,
)
    requires
        index != 0 || !is_first_line,
        0 <= i < shown_line(
            line,
            index,
            is_first_line,
            markers,
            style,
            truncation,
            remapping,
        ).len(),
    ensures
        shown_line(line, index, is_first_line, markers, style, truncation, remapping)[i].kind
            != (AgentDisplayLineKind::Message { use_agent_bullet: true }),
{
    let own = ranking::ranked(markers.filter(on_line(index)));
    lemma_no_bullet(
        styled::plain(line.line),
        line,
        0,
        grouped(own),
        style,
        truncation,
        remapping,
    );
}

/// Further markers of a line stand behind as much of what is left of it as their place is
/// behind that of the markers before them; where that is nothing, their block follows at
/// once. What is left behind them is shown without the spaces that it starts with.
pub proof fn law_further_markers_count_from_the_ones_before(
    whole: Seq<char>,
    rest: history_cell::HyperlinkLineView,
    consumed: int,
    groups: Seq<Seq<AgentBranchMarker>>,
    bullet: bool,
    style: Style,
    truncation: spec_fn(Seq<char>, int) -> Seq<char>,
    remapping: spec_fn(history_cell::HyperlinkLineView, Seq<styled::LineView>) -> Seq<
        history_cell::HyperlinkLineView,
    >,
    count: int,
)
    requires
        keeps_lines(remapping),
        groups.len() > 0,
        0 < consumed,
        0 <= count <= styled::plain(rest.line).len(),
        ({
            let end = text::char_end(whole, groups[0][0].source_byte_offset as int);
            ||| end <= consumed && count == 0
            ||| end - consumed == text::byte_pos(styled::plain(rest.line), count)
        }),
    ensures
        ({
            let shown = decorated_rest(
                whole,
                rest,
                consumed,
                groups,
                bullet,
                style,
                truncation,
                remapping,
            );
            let block = agent_markers::marker_block(groups[0], style, truncation);
            let size = block.len() as int;
            &&& count == 0 ==> shown.len() >= size && shown.take(size) == block
            &&& count > 0 ==> {
                &&& shown.len() >= size + 1
                &&& shown[0].kind == (AgentDisplayLineKind::Message { use_agent_bullet: false })
                &&& styled::plain(shown[0].line.line) == styled::plain(rest.line).take(count)
                &&& shown.subrange(1, size + 1) == block
            }
        }),
{
    let content = styled::plain(rest.line);
    let end = text::char_end(whole, groups[0][0].source_byte_offset as int);
    let ahead = still_to_come(end, consumed);
    let (left, right) = line_split::split_line(rest.line, ahead);
    text::lemma_byte_pos_ends(content);
    text::lemma_byte_pos_grows(content, 0, count);
    assert(ahead == text::byte_pos(content, count));
    line_split::law_split_keeps_the_text(rest.line, ahead);
    text::lemma_char_index_of_pos(content, count);
    assert(text::ceil_boundary(content, ahead) == ahead);
    assert(styled::plain(left) =~= content.subrange(0, styled::plain(left).len() as int));
    lemma_start_with_length(content, styled::plain(left), count);
    let (prefix, suffix) = split_linked(rest, ahead, remapping);
    assert(prefix == relinked(rest, left, remapping));
    assert(prefix.line == left);
    let first = shown_if_visible(prefix, bullet && false);
    let block = agent_markers::marker_block(groups[0], style, truncation);
    let others = decorated_rest(
        whole,
        line_split::line_without_leading_spaces(suffix),
        end,
        groups.skip(1),
        bullet,
        style,
        truncation,
        remapping,
    );
    let shown = decorated_rest(
        whole,
        rest,
        consumed,
        groups,
        bullet,
        style,
        truncation,
        remapping,
    );
    assert(shown == first + block + others);
    if count == 0 {
        assert(first =~= Seq::<agent_markers::DisplayView>::empty());
        assert(shown.take(block.len() as int) =~= block);
    } else {
        assert(first == seq![message_line(prefix, false)]);
        assert(shown.subrange(1, block.len() as int + 1) =~= block);
    }
}

proof fn lemma_no_own_markers(markers: Seq<AgentBranchMarker>, index: int)
    requires
        forall|i: int|
            0 <= i < markers.len() ==> (#[trigger] markers[i]).source_line_index != index,
    ensures
        markers.filter(on_line(index)).len() == 0,
    decreases markers.len(),
{
    reveal(Seq::filter);
    if markers.len() > 0 {
        assert(markers.last() == markers[markers.len() - 1]);
        lemma_no_own_markers(markers.drop_last(), index);
    }
}

/// A line without markers of its own is shown as it is, and starts with the bullet where it
/// is the first of its reply.
pub proof fn law_lines_without_markers_stay_as_they_are(
    line: history_cell::HyperlinkLineView,
    index: int,
    is_first_line: bool,
    markers: Seq<AgentBranchMarker>,
    style: Style,
    truncation: spec_fn(Seq<char>, int) -> Seq<char>,
    remapping: spec_fn(history_cell::HyperlinkLineView, Seq<styled::LineView>) -> Seq<
        history_cell::HyperlinkLineView,
    >,
)
    requires
        forall|i: int|
            0 <= i < markers.len() ==> (#[trigger] markers[i]).source_line_index != index,
    ensures
        ({
            let shown = shown_line(
                line,
                index,
                is_first_line,
                markers,
                style,
                truncation,
                remapping,
            );
            &&& shown.len() == 1
            &&& shown[0].line == line
            &&& shown[0].kind == (AgentDisplayLineKind::Message {
                use_agent_bullet: index == 0 && is_first_line,
            })
        }),
{
    lemma_no_own_markers(markers, index);
    ranking::law_sorting_is_stable(markers.filter(on_line(index)));
}

/// A line with markers of its own shows exactly these, in the order of the line.
pub proof fn law_lines_show_their_own_markers(
    line: history_cell::HyperlinkLineView,
    index: int,
    is_first_line: bool,
    markers: Seq<AgentBranchMarker>,
    style: Style,
    truncation: spec_fn(Seq<char>, int) -> Seq<char>,
    remapping: spec_fn(history_cell::HyperlinkLineView, Seq<styled::LineView>) -> Seq<
        history_cell::HyperlinkLineView,
    >,
    k: int,
    i: int,
    j: int,
)
    requires
        0 <= k < markers.len(),
        markers[k].source_line_index == index,
    ensures
        ({
            let own = ranking::ranked(markers.filter(on_line(index)));
            &&& own.contains(markers[k])
            &&& 0 <= i < own.len() ==> own[i].source_line_index == index
            &&& 0 <= i < j < own.len() ==> own[i].source_byte_offset <= own[j].source_byte_offset
            &&& shown_line(line, index, is_first_line, markers, style, truncation, remapping)
                == decorated(line, own, index == 0 && is_first_line, style, truncation, remapping)
        }),
{
    let found = markers.filter(on_line(index));
    let own = ranking::ranked(found);
    markers.lemma_filter_contains(on_line(index), k);
    let first = choose|i: int| 0 <= i < found.len() && found[i] == markers[k];
    assert(found[first] == markers[k]);
    ranking::law_sorting_is_stable(found);
    own.to_multiset_ensures();
    found.to_multiset_ensures();
    assert(own.to_multiset().count(markers[k]) > 0);
    assert(own.contains(markers[k]));
    assert(own.len() > 0);
    if 0 <= i < own.len() {
        lemma_own_markers(markers, index, own[i]);
        if i < j < own.len() {
            lemma_own_markers(markers, index, own[j]);
            assert(own[i].not_after(own[j]));
        }
    }
}

proof fn lemma_own_markers(
    markers: Seq<AgentBranchMarker>,
    index: int,
    marker: AgentBranchMarker,
)
    requires
        ranking::ranked(markers.filter(on_line(index))).contains(marker),
    ensures
        marker.source_line_index == index,
{
    let found = markers.filter(on_line(index));
    let own = ranking::ranked(found);
    ranking::law_sorting_is_stable(found);
    own.to_multiset_ensures();
    found.to_multiset_ensures();
    assert(found.to_multiset().count(marker) > 0);
    assert(found.contains(marker));
    let i = choose|i: int| 0 <= i < found.len() && found[i] == marker;
    markers.lemma_filter_pred(on_line(index), i);
}

/// The lines of a reply are shown one behind the other.
pub proof fn law_lines_are_shown_in_order(
    lines: Seq<history_cell::HyperlinkLineView>,
    line: history_cell::HyperlinkLineView,
    is_first_line: bool,
    markers: Seq<AgentBranchMarker>,
    style: Style,
    truncation: spec_fn(Seq<char>, int) -> Seq<char>,
    remapping: spec_fn(history_cell::HyperlinkLineView, Seq<styled::LineView>) -> Seq<
        history_cell::HyperlinkLineView,
    >,
)
    ensures
        shown_lines(lines.push(line), is_first_line, markers, style, truncation, remapping)
            == shown_lines(lines, is_first_line, markers, style, truncation, remapping)
            + shown_line(
            line,
            lines.len() as int,
            is_first_line,
            markers,
            style,
            truncation,
            remapping,
        ),
{
    assert(lines.push(line).drop_last() =~= lines);
}

} // verus!
