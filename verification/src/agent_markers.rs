//! Markers of child branches inside the replies of the parent thread.
use crate::history_cell;
use crate::history_cell::{AgentBranchMarker, AgentMessageCell, HyperlinkLine};
use crate::ranking;
use crate::ranking::{sort_ranked, Ranked};
use crate::strings;
use crate::strings::{push_decimal, trim};
use crate::styled;
use crate::styled::{Color, Line, Span, Style};
use vstd::prelude::*;
use vstd::string::*;

verus! {

/// The greatest number of graphemes of a summary in a marker.
pub const MARKER_SUMMARY_GRAPHEMES: usize = 48;

/// A child branch that has no place in a reply.
#[derive(Clone, Debug, PartialEq, Eq)]
pub struct UnresolvedBranchMarkerInfo {
    pub branch_depth: u32,
    pub branch_id_suffix: String,
    pub selection_summary: String,
}

/// What a displayed line belongs to.
#[derive(Clone, Copy, Debug, PartialEq, Eq, Structural)]
pub enum AgentDisplayLineKind {
    Message { use_agent_bullet: bool },
    BranchChrome,
}

/// A displayed line of a reply.
#[derive(Clone, Debug, PartialEq, Eq)]
pub struct AgentDisplayLine {
    pub line: HyperlinkLine,
    pub kind: AgentDisplayLineKind,
}

/// What a displayed line holds.
pub struct DisplayView {
    pub line: history_cell::HyperlinkLineView,
    pub kind: AgentDisplayLineKind,
}

impl View for AgentDisplayLine {
    type V = DisplayView;

    open spec fn view(&self) -> DisplayView {
        DisplayView { line: self.line@, kind: self.kind }
    }
}

/// The views of displayed lines.
pub open spec fn display_views(lines: Seq<AgentDisplayLine>) -> Seq<DisplayView> {
    Seq::new(lines.len(), |i: int| lines[i]@)
}

// ---------------------------------------------------------------------------
// Keeping markers in order
// ---------------------------------------------------------------------------
impl Ranked for AgentBranchMarker {
    open spec fn not_after(self, other: Self) -> bool {
        self.source_line_index < other.source_line_index || (self.source_line_index
            == other.source_line_index && self.source_byte_offset <= other.source_byte_offset)
    }

    fn ranks_up_to(&self, other: &Self) -> (yes: bool) {
        self.source_line_index < other.source_line_index || (self.source_line_index
            == other.source_line_index && self.source_byte_offset <= other.source_byte_offset)
    }

    proof fn ranks_are_ordered(a: Self, b: Self, c: Self) {
    }
}

/// Adds a marker to some, and sorts them by their places; markers of one place keep their
/// order.
pub fn add_branch_marker(branch_markers: &mut Vec<AgentBranchMarker>, marker: AgentBranchMarker)
    ensures
        final(branch_markers)@ == ranking::ranked(old(branch_markers)@.push(marker)),
{
    branch_markers.push(marker);
    sort_ranked(branch_markers);
}

impl AgentMessageCell {
    /// Adds a marker to this cell.
    pub fn add_branch_marker(&mut self, marker: AgentBranchMarker)
        ensures
            final(self).branch_markers@ == ranking::ranked(old(self).branch_markers@.push(marker)),
            *final(self) == (AgentMessageCell {
                branch_markers: final(self).branch_markers,
                ..*old(self)
            }),
    {
        add_branch_marker(&mut self.branch_markers, marker);
    }
}

impl AgentBranchMarker {
    /// A copy of this marker.
    pub fn copy(&self) -> (marker: AgentBranchMarker)
        ensures
            marker == *self,
    {
        AgentBranchMarker {
            source_line_index: self.source_line_index,
            source_byte_offset: self.source_byte_offset,
            branch_depth: self.branch_depth,
            branch_id_suffix: self.branch_id_suffix.clone(),
            selection_summary: self.selection_summary.clone(),
        }
    }
}

// ---------------------------------------------------------------------------
// Marker lines
// ---------------------------------------------------------------------------
/// The style of the block of markers, on a colour.
pub open spec fn block_style(color: Color) -> Style {
    Style { bg: Some(color), ..styled::no_style() }
}

/// Whether a choice of colours answers for every colour.
pub open spec fn chooses_colors<C: Fn(u8, u8, u8) -> Color>(best_color: C) -> bool {
    forall|red: u8, green: u8, blue: u8| call_requires(best_color, (red, green, blue))
}

/// The style of the block of markers: on the terminal's best colour for a dark teal.
pub fn branch_marker_block_style<C: Fn(u8, u8, u8) -> Color>(best_color: &C) -> (style: Style)
    requires
        chooses_colors(*best_color),
    ensures
        exists|color: Color| #[trigger]
            call_ensures(*best_color, (19u8, 53u8, 74u8), color) && style == block_style(color),
{
    let color = best_color(19, 53, 74);
    Style::on(color)
}

/// A span with a text in a style.
pub open spec fn span_of(content: Seq<char>, style: Style) -> styled::SpanView {
    styled::SpanView { content, style }
}

/// An unstyled empty line in a line style.
pub open spec fn empty_line(style: Style) -> styled::LineView {
    styled::LineView { spans: styled::raw_spans(""@), style }
}

/// A summary as it is quoted in a marker.
pub open spec fn quoted_summary(
    summary: Seq<char>,
    model: spec_fn(Seq<char>, int) -> Seq<char>,
) -> Seq<char> {
    "\"..."@ + model(strings::trimmed(summary), MARKER_SUMMARY_GRAPHEMES as int) + "\""@
}

/// The line of a marker.
pub open spec fn marker_line(
    depth: u32,
    suffix: Seq<char>,
    summary: Seq<char>,
    style: Style,
    model: spec_fn(Seq<char>, int) -> Seq<char>,
) -> styled::LineView {
    styled::LineView {
        spans: seq![
            styled::raw_span("⎇ "@),
            span_of("Branch "@, styled::modified(styled::no_style(), styled::BOLD)),
            span_of(
                "d"@ + strings::decimal(depth as nat) + " · "@ + suffix,
                styled::modified(styled::in_cyan(styled::no_style()), styled::BOLD),
            ),
            styled::raw_span(": "@),
            span_of(
                quoted_summary(summary, model),
                styled::modified(styled::no_style(), styled::DIM),
            ),
        ],
        style,
    }
}

/// The line of a marker.
fn line_of_marker<T: Fn(&str, usize) -> String>(
    branch_depth: u32,
    branch_id_suffix: &str,
    selection_summary: &str,
    style: Style,
    truncate_text: &T,
) -> (line: Line)
    requires
        styled::is_truncation(*truncate_text),
    ensures
        forall|model: spec_fn(Seq<char>, int) -> Seq<char>| #[trigger]
            styled::truncates_as(*truncate_text, model) ==> line@ == marker_line(
                branch_depth,
                branch_id_suffix@,
                selection_summary@,
                style,
                model,
            ),
{
    let mut label = "d".to_owned();
    push_decimal(&mut label, branch_depth as u64);
    label.append(" · ");
    label.append(branch_id_suffix);
    let trimmed = trim(selection_summary);
    let summary = truncate_text(trimmed.as_str(), MARKER_SUMMARY_GRAPHEMES);
    let mut quoted = "\"...".to_owned();
    quoted.append(summary.as_str());
    quoted.append("\"");
    let mut spans: Vec<Span> = Vec::new();
    spans.push(Span::raw("⎇ "));
    spans.push(Span::styled("Branch ", Style::plain().with_modifier(styled::BOLD)));
    spans.push(Span::styled(label.as_str(), Style::plain().cyan().with_modifier(styled::BOLD)));
    spans.push(Span::raw(": "));
    spans.push(Span::styled(quoted.as_str(), Style::plain().with_modifier(styled::DIM)));
    let line = Line::of_spans(spans, style);
    assert forall|model: spec_fn(Seq<char>, int) -> Seq<char>| #[trigger]
        styled::truncates_as(*truncate_text, model) implies line@ == marker_line(
        branch_depth,
        branch_id_suffix@,
        selection_summary@,
        style,
        model,
    ) by {
        assert(quoted@ == quoted_summary(selection_summary@, model));
        assert(line@.spans =~= marker_line(
            branch_depth,
            branch_id_suffix@,
            selection_summary@,
            style,
            model,
        ).spans);
    }
    line
}

/// A line of the block around markers.
pub open spec fn chrome(line: styled::LineView) -> DisplayView {
    DisplayView { line: history_cell::unlinked(line), kind: AgentDisplayLineKind::BranchChrome }
}

/// The line of a marker in a block.
pub open spec fn marker_chrome(
    marker: AgentBranchMarker,
    style: Style,
    model: spec_fn(Seq<char>, int) -> Seq<char>,
) -> DisplayView {
    chrome(
        marker_line(
            marker.branch_depth,
            marker.branch_id_suffix@,
            marker.selection_summary@,
            style,
            model,
        ),
    )
}

/// The lines of some markers.
pub open spec fn marker_chromes(
    markers: Seq<AgentBranchMarker>,
    style: Style,
    model: spec_fn(Seq<char>, int) -> Seq<char>,
) -> Seq<DisplayView> {
    Seq::new(markers.len(), |i: int| marker_chrome(markers[i], style, model))
}

/// The block of some markers: their lines between two empty lines of the block, with an
/// empty line of the reply above and below.
pub open spec fn marker_block(
    markers: Seq<AgentBranchMarker>,
    style: Style,
    model: spec_fn(Seq<char>, int) -> Seq<char>,
) -> Seq<DisplayView> {
    seq![chrome(empty_line(styled::no_style())), chrome(empty_line(style))] + marker_chromes(
        markers,
        style,
        model,
    ) + seq![chrome(empty_line(style)), chrome(empty_line(styled::no_style()))]
}

/// A line of the block around markers.
fn chrome_line(line: Line) -> (display: AgentDisplayLine)
    ensures
        display@ == chrome(line@),
{
    AgentDisplayLine {
        line: HyperlinkLine::new(line),
        kind: AgentDisplayLineKind::BranchChrome,
    }
}

/// The block of some markers.
pub fn marker_block_lines<T: Fn(&str, usize) -> String>(
    markers: &[AgentBranchMarker],
    block_style: Style,
    truncate_text: &T,
) -> (lines: Vec<AgentDisplayLine>)
    requires
        styled::is_truncation(*truncate_text),
    ensures
        forall|model: spec_fn(Seq<char>, int) -> Seq<char>| #[trigger]
            styled::truncates_as(*truncate_text, model) ==> display_views(lines@) == marker_block(
                markers@,
                block_style,
                model,
            ),
{
    let mut lines: Vec<AgentDisplayLine> = Vec::new();
    lines.push(chrome_line(Line::of_text("", Style::plain())));
    lines.push(chrome_line(Line::of_text("", block_style)));
    let ghost top = display_views(lines@);
    assert(top =~= seq![chrome(empty_line(styled::no_style())), chrome(empty_line(block_style))]);
    let mut index: usize = 0;
    assert forall|model: spec_fn(Seq<char>, int) -> Seq<char>| #[trigger]
        styled::truncates_as(*truncate_text, model) implies display_views(lines@) == top
        + marker_chromes(markers@.take(0), block_style, model) by {
        assert(top + marker_chromes(markers@.take(0), block_style, model) =~= top);
    }
    while index < markers.len()
        invariant
            index <= markers@.len(),
            styled::is_truncation(*truncate_text),
            forall|model: spec_fn(Seq<char>, int) -> Seq<char>| #[trigger]
                styled::truncates_as(*truncate_text, model) ==> display_views(lines@) == top
                    + marker_chromes(markers@.take(index as int), block_style, model),
        decreases markers@.len() - index,
    {
        let marker = &markers[index];
        let ghost before = display_views(lines@);
        let line = line_of_marker(
            marker.branch_depth,
            marker.branch_id_suffix.as_str(),
            marker.selection_summary.as_str(),
            block_style,
            truncate_text,
        );
        let ghost added = chrome(line@);
        lines.push(chrome_line(line));
        proof {
            assert(display_views(lines@) =~= before.push(added));
            assert forall|model: spec_fn(Seq<char>, int) -> Seq<char>| #[trigger]
                styled::truncates_as(*truncate_text, model) implies display_views(lines@) == top
                + marker_chromes(markers@.take(index as int + 1), block_style, model) by {
                assert(added == marker_chrome(*marker, block_style, model));
                assert(marker_chromes(markers@.take(index as int + 1), block_style, model)
                    =~= marker_chromes(markers@.take(index as int), block_style, model).push(
                    added,
                ));
                assert(before.push(added) =~= top + marker_chromes(
                    markers@.take(index as int + 1),
                    block_style,
                    model,
                ));
            }
        }
        index = index + 1;
    }
    let ghost before = display_views(lines@);
    lines.push(chrome_line(Line::of_text("", block_style)));
    lines.push(chrome_line(Line::of_text("", Style::plain())));
    proof {
        let bottom = seq![chrome(empty_line(block_style)), chrome(empty_line(styled::no_style()))];
        assert(markers@.take(markers@.len() as int) =~= markers@);
        assert(display_views(lines@) =~= before + bottom);
    }
    lines
}

// ---------------------------------------------------------------------------
// Markers without a place
// ---------------------------------------------------------------------------
/// The lines of some markers without a place.
pub open spec fn unresolved_marker_lines(
    markers: Seq<UnresolvedBranchMarkerInfo>,
    style: Style,
    model: spec_fn(Seq<char>, int) -> Seq<char>,
) -> Seq<styled::LineView> {
    Seq::new(
        markers.len(),
        |i: int|
            marker_line(
                markers[i].branch_depth,
                markers[i].branch_id_suffix@,
                markers[i].selection_summary@,
                style,
                model,
            ),
    )
}

/// The heading above markers without a place.
pub open spec fn unresolved_heading() -> styled::LineView {
    styled::LineView {
        spans: seq![
            span_of("• "@, styled::modified(styled::no_style(), styled::DIM)),
            styled::raw_span(
                "Some child branches could not be placed inline and are shown here:"@,
            ),
        ],
        style: styled::no_style(),
    }
}

/// The lines that show markers without a place.
pub open spec fn unresolved_event(
    markers: Seq<UnresolvedBranchMarkerInfo>,
    style: Style,
    model: spec_fn(Seq<char>, int) -> Seq<char>,
) -> Seq<styled::LineView> {
    seq![unresolved_heading(), empty_line(styled::no_style()), empty_line(style)]
        + unresolved_marker_lines(markers, style, model) + seq![
        empty_line(style),
        empty_line(styled::no_style()),
    ]
}

/// The lines that show markers without a place.
pub fn new_unresolved_branch_markers_event<T: Fn(&str, usize) -> String>(
    markers: &[UnresolvedBranchMarkerInfo],
    block_style: Style,
    truncate_text: &T,
) -> (lines: Vec<Line>)
    requires
        styled::is_truncation(*truncate_text),
    ensures
        forall|model: spec_fn(Seq<char>, int) -> Seq<char>| #[trigger]
            styled::truncates_as(*truncate_text, model) ==> styled::line_views(lines@)
                == unresolved_event(markers@, block_style, model),
{
    let mut heading: Vec<Span> = Vec::new();
    heading.push(Span::styled("• ", Style::plain().with_modifier(styled::DIM)));
    heading.push(
        Span::raw("Some child branches could not be placed inline and are shown here:"),
    );
    let heading = Line::of_spans(heading, Style::plain());
    assert(heading@.spans =~= unresolved_heading().spans);
    let mut lines: Vec<Line> = Vec::new();
    lines.push(heading);
    lines.push(Line::of_text("", Style::plain()));
    lines.push(Line::of_text("", block_style));
    let ghost top = styled::line_views(lines@);
    assert(top =~= seq![
        unresolved_heading(),
        empty_line(styled::no_style()),
        empty_line(block_style),
    ]);
    let mut index: usize = 0;
    assert forall|model: spec_fn(Seq<char>, int) -> Seq<char>| #[trigger]
        styled::truncates_as(*truncate_text, model) implies styled::line_views(lines@) == top
        + unresolved_marker_lines(markers@.take(0), block_style, model) by {
        assert(top + unresolved_marker_lines(markers@.take(0), block_style, model) =~= top);
    }
    while index < markers.len()
        invariant
            index <= markers@.len(),
            styled::is_truncation(*truncate_text),
            forall|model: spec_fn(Seq<char>, int) -> Seq<char>| #[trigger]
                styled::truncates_as(*truncate_text, model) ==> styled::line_views(lines@) == top
                    + unresolved_marker_lines(markers@.take(index as int), block_style, model),
        decreases markers@.len() - index,
    {
        let marker = &markers[index];
        let ghost before = styled::line_views(lines@);
        let line = line_of_marker(
            marker.branch_depth,
            marker.branch_id_suffix.as_str(),
            marker.selection_summary.as_str(),
            block_style,
            truncate_text,
        );
        let ghost added = line@;
        lines.push(line);
        proof {
            assert(styled::line_views(lines@) =~= before.push(added));
            assert forall|model: spec_fn(Seq<char>, int) -> Seq<char>| #[trigger]
                styled::truncates_as(*truncate_text, model) implies styled::line_views(lines@)
                == top + unresolved_marker_lines(
                markers@.take(index as int + 1),
                block_style,
                model,
            ) by {
                assert(unresolved_marker_lines(
                    markers@.take(index as int + 1),
                    block_style,
                    model,
                ) =~= unresolved_marker_lines(
                    markers@.take(index as int),
                    block_style,
                    model,
                ).push(added));
                assert(before.push(added) =~= top + unresolved_marker_lines(
                    markers@.take(index as int + 1),
                    block_style,
                    model,
                ));
            }
        }
        index = index + 1;
    }
    let ghost before = styled::line_views(lines@);
    lines.push(Line::of_text("", block_style));
    lines.push(Line::of_text("", Style::plain()));
    proof {
        let bottom = seq![empty_line(block_style), empty_line(styled::no_style())];
        assert(markers@.take(markers@.len() as int) =~= markers@);
        assert(styled::line_views(lines@) =~= before + bottom);
    }
    lines
}

/// A marker names its branch by depth and thread and quotes its selection, without the
/// whitespace around it and cut where it is too long to show. Its depth and thread stand out,
/// and the quotation stands back.
pub proof fn law_marker_lines_name_the_branch(
    depth: u32,
    suffix: Seq<char>,
    summary: Seq<char>,
    style: Style,
    model: spec_fn(Seq<char>, int) -> Seq<char>,
)
    ensures
        ({
            let line = marker_line(depth, suffix, summary, style, model);
            &&& line.style == style
            &&& line.spans.len() == 5
            &&& line.spans[0].content == "⎇ "@
            &&& line.spans[1].content == "Branch "@
            &&& line.spans[2].content == "d"@ + strings::decimal(depth as nat) + " · "@ + suffix
            &&& line.spans[3].content == ": "@
            &&& line.spans[4].content == "\"..."@ + model(strings::trimmed(summary), 48) + "\""@
            &&& line.spans[0].style == styled::no_style()
            &&& line.spans[1].style == styled::modified(styled::no_style(), 1)
            &&& line.spans[2].style.fg == Some(Color::Cyan)
            &&& line.spans[2].style.add_modifier == line.spans[1].style.add_modifier
            &&& line.spans[3].style == styled::no_style()
            &&& line.spans[4].style == styled::modified(styled::no_style(), 2)
        }),
{
}

/// The markers of one place stand in a block of their own, in order, between two empty lines
/// of the block and two outside of it, and no line of it is a line of the message.
pub proof fn law_marker_blocks_hold_all_markers(
    markers: Seq<AgentBranchMarker>,
    style: Style,
    model: spec_fn(Seq<char>, int) -> Seq<char>,
    i: int,
)
    requires
        0 <= i < markers.len(),
    ensures
        ({
            let block = marker_block(markers, style, model);
            let count = markers.len() as int;
            &&& block.len() == count + 4
            &&& block[0].line.line == empty_line(styled::no_style())
            &&& block[1].line.line == empty_line(style)
            &&& block[2 + i].line.line == marker_line(
                markers[i].branch_depth,
                markers[i].branch_id_suffix@,
                markers[i].selection_summary@,
                style,
                model,
            )
            &&& block[count + 2].line.line == empty_line(style)
            &&& block[count + 3].line.line == empty_line(styled::no_style())
            &&& forall|j: int|
                0 <= j < block.len() ==> (#[trigger] block[j]).kind is BranchChrome
                    && block[j].line.links is None
        }),
{
}

/// The markers that could not be placed are all listed, in order, below a line that says so.
pub proof fn law_unplaced_markers_are_listed(
    markers: Seq<UnresolvedBranchMarkerInfo>,
    style: Style,
    model: spec_fn(Seq<char>, int) -> Seq<char>,
    i: int,
)
    requires
        0 <= i < markers.len(),
    ensures
        ({
            let lines = unresolved_event(markers, style, model);
            let count = markers.len() as int;
            &&& lines.len() == count + 5
            &&& lines[0].spans[0].content == "• "@
            &&& lines[0].spans[1].content
                == "Some child branches could not be placed inline and are shown here:"@
            &&& lines[1] == empty_line(styled::no_style())
            &&& lines[2] == empty_line(style)
            &&& lines[3 + i] == marker_line(
                markers[i].branch_depth,
                markers[i].branch_id_suffix@,
                markers[i].selection_summary@,
                style,
                model,
            )
            &&& lines[count + 3] == empty_line(style)
            &&& lines[count + 4] == empty_line(styled::no_style())
        }),
{
}

} // verus!
