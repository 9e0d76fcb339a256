//! The cells of the transcript that hold assistant replies.
use crate::protocol;
use crate::strings;
use crate::styled;
use crate::styled::{line_plain_text, Line};
use vstd::prelude::*;
use vstd::string::*;

verus! {

/// A line with its hyperlinks, which the application keeps under a key.
#[derive(Clone, Debug, PartialEq, Eq)]
pub struct HyperlinkLine {
    pub line: Line,
    pub links: Option<u64>,
}

/// What a line with hyperlinks holds.
pub struct HyperlinkLineView {
    pub line: styled::LineView,
    pub links: Option<u64>,
}

impl View for HyperlinkLine {
    type V = HyperlinkLineView;

    open spec fn view(&self) -> HyperlinkLineView {
        HyperlinkLineView { line: self.line@, links: self.links }
    }
}

/// The views of lines with hyperlinks.
pub open spec fn hyperlink_views(lines: Seq<HyperlinkLine>) -> Seq<HyperlinkLineView> {
    Seq::new(lines.len(), |i: int| lines[i]@)
}

/// A line without hyperlinks.
pub open spec fn unlinked(line: styled::LineView) -> HyperlinkLineView {
    HyperlinkLineView { line, links: None }
}

/// The texts of lines with hyperlinks.
pub open spec fn hyperlink_texts(lines: Seq<HyperlinkLineView>) -> Seq<Seq<char>> {
    Seq::new(lines.len(), |i: int| styled::plain(lines[i].line))
}

impl HyperlinkLine {
    /// A line without hyperlinks.
    pub fn new(line: Line) -> (linked: HyperlinkLine)
        ensures
            linked@ == unlinked(line@),
    {
        HyperlinkLine { line, links: None }
    }

    /// A copy of this line.
    pub fn copy(&self) -> (line: HyperlinkLine)
        ensures
            line@ == self@,
    {
        HyperlinkLine { line: self.line.copy(), links: self.links }
    }
}

/// A child branch, to be shown at a byte offset of a line.
#[derive(Clone, Debug, PartialEq, Eq)]
pub struct AgentBranchMarker {
    pub source_line_index: usize,
    pub source_byte_offset: usize,
    pub branch_depth: u32,
    pub branch_id_suffix: String,
    pub selection_summary: String,
}

/// A reply, or a part of one, as it came in.
#[derive(Clone, Debug, PartialEq, Eq)]
pub struct AgentMessageCell {
    pub lines: Vec<HyperlinkLine>,
    pub is_first_line: bool,
    pub raw_markdown: Option<String>,
    pub source_segments: Option<Vec<String>>,
    pub branch_markers: Vec<AgentBranchMarker>,
}

/// A complete reply with its markdown.
#[derive(Clone, Debug, PartialEq, Eq)]
pub struct AgentMarkdownCell {
    pub markdown_source: String,
    pub lines: Vec<HyperlinkLine>,
}

/// A cell of the transcript.
#[derive(Clone, Debug, PartialEq, Eq)]
pub enum HistoryCell {
    Message(AgentMessageCell),
    Markdown(AgentMarkdownCell),
    /// A cell that holds no reply.
    Other,
}

/// What a part of a reply holds.
pub struct MessageView {
    pub continues: bool,
    pub raw_markdown: Option<Seq<char>>,
    pub source_segments: Option<Seq<Seq<char>>>,
    pub texts: Seq<Seq<char>>,
}

/// What a cell holds of a reply.
pub enum CellView {
    Message(MessageView),
    Markdown { raw_markdown: Seq<char>, texts: Seq<Seq<char>> },
    Other,
}

/// What a part of a reply holds.
pub open spec fn message_view(cell: AgentMessageCell) -> MessageView {
    MessageView {
        continues: !cell.is_first_line,
        raw_markdown: strings::opt_text(cell.raw_markdown),
        source_segments: protocol::opt_texts(cell.source_segments),
        texts: hyperlink_texts(hyperlink_views(cell.lines@)),
    }
}

/// What a cell holds of a reply.
pub open spec fn cell_view(cell: HistoryCell) -> CellView {
    match cell {
        HistoryCell::Message(cell) => CellView::Message(message_view(cell)),
        HistoryCell::Markdown(cell) => CellView::Markdown {
            raw_markdown: cell.markdown_source@,
            texts: hyperlink_texts(hyperlink_views(cell.lines@)),
        },
        HistoryCell::Other => CellView::Other,
    }
}

/// What cells hold of replies.
pub open spec fn cell_views(cells: Seq<HistoryCell>) -> Seq<CellView> {
    Seq::new(cells.len(), |i: int| cell_view(cells[i]))
}

/// The texts of lines with hyperlinks.
pub fn source_lines_plain_text(lines: &[HyperlinkLine]) -> (plain_text: Vec<String>)
    ensures
        strings::texts(plain_text@) == hyperlink_texts(hyperlink_views(lines@)),
{
    let mut plain_text: Vec<String> = Vec::new();
    let mut index: usize = 0;
    let ghost all = hyperlink_texts(hyperlink_views(lines@));
    while index < lines.len()
        invariant
            index <= lines@.len(),
            all == hyperlink_texts(hyperlink_views(lines@)),
            strings::texts(plain_text@) =~= all.take(index as int),
        decreases lines@.len() - index,
    {
        let ghost before = strings::texts(plain_text@);
        plain_text.push(line_plain_text(&lines[index].line));
        assert(hyperlink_views(lines@)[index as int] == lines@[index as int]@);
        assert(strings::texts(plain_text@) =~= before.push(all[index as int]));
        index = index + 1;
    }
    assert(strings::texts(plain_text@) =~= all);
    plain_text
}

impl AgentMessageCell {
    /// A cell of rendered lines with the markdown that they come from.
    pub fn new_with_raw_markdown(
        lines: Vec<Line>,
        is_first_line: bool,
        raw_markdown: Option<String>,
    ) -> (cell: AgentMessageCell)
        ensures
            cell.lines@.len() == lines@.len(),
            forall|i: int|
                0 <= i < lines@.len() ==> (#[trigger] cell.lines@[i])@ == unlinked(lines@[i]@),
            cell.is_first_line == is_first_line,
            cell.raw_markdown == raw_markdown,
            cell.source_segments is None,
            cell.branch_markers@.len() == 0,
    {
        let mut linked: Vec<HyperlinkLine> = Vec::new();
        let mut index: usize = 0;
        while index < lines.len()
            invariant
                index <= lines@.len(),
                linked@.len() == index,
                forall|i: int|
                    0 <= i < index ==> (#[trigger] linked@[i])@ == unlinked(lines@[i]@),
            decreases lines@.len() - index,
        {
            linked.push(HyperlinkLine::new(lines[index].copy()));
            index = index + 1;
        }
        AgentMessageCell {
            lines: linked,
            is_first_line,
            raw_markdown,
            source_segments: None,
            branch_markers: Vec::new(),
        }
    }

    /// Whether this cell continues the reply of the cell before it.
    pub fn is_stream_continuation(&self) -> (continues: bool)
        ensures
            continues == message_view(*self).continues,
    {
        !self.is_first_line
    }

    /// The markdown of the reply, where it is known.
    pub fn raw_markdown_text(&self) -> (text: Option<&str>)
        ensures
            strings::opt_str(text) == message_view(*self).raw_markdown,
    {
        match &self.raw_markdown {
            Some(text) => Some(text.as_str()),
            None => None,
        }
    }

    /// The texts of the lines of this cell.
    pub fn source_lines_plain_text(&self) -> (plain_text: Vec<String>)
        ensures
            strings::texts(plain_text@) == message_view(*self).texts,
    {
        source_lines_plain_text(&self.lines)
    }

    /// Keeps the segments in which the reply is stored.
    pub fn set_source_segments(&mut self, source_segments: Option<Vec<String>>)
        ensures
            *final(self) == (AgentMessageCell { source_segments, ..*old(self) }),
    {
        self.source_segments = source_segments;
    }
}

/// A cell is seen as what it holds: whether it goes on with a reply, the source and the pieces
/// of it, and the text of each of its lines.
pub proof fn law_cells_are_seen_as_they_are(
    message: AgentMessageCell,
    markdown: AgentMarkdownCell,
    i: int,
)
    ensures
        cell_view(HistoryCell::Message(message)) matches CellView::Message(view) && {
            &&& view.continues == !message.is_first_line
            &&& message.raw_markdown is Some ==> view.raw_markdown == Some(
                message.raw_markdown->0@,
            )
            &&& message.raw_markdown is None ==> view.raw_markdown is None
            &&& view.source_segments == protocol::opt_texts(message.source_segments)
            &&& view.texts.len() == message.lines@.len()
            &&& 0 <= i < message.lines@.len() ==> view.texts[i] == styled::plain(
                message.lines@[i].line@,
            )
        },
        cell_view(HistoryCell::Markdown(markdown)) matches CellView::Markdown {
            raw_markdown,
            texts,
        } && {
            &&& raw_markdown == markdown.markdown_source@
            &&& texts.len() == markdown.lines@.len()
            &&& 0 <= i < markdown.lines@.len() ==> texts[i] == styled::plain(
                markdown.lines@[i].line@,
            )
        },
        cell_view(HistoryCell::Other) is Other,
{
}

} // verus!
