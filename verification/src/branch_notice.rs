//! The cell of the transcript that shows a notice on a change of branch.
use crate::branch_chrome;
use crate::strings;
use crate::strings::starts_with;
use crate::styled;
use crate::styled::{Line, Style};
use vstd::prelude::*;
use vstd::string::*;

verus! {

/// A notice: a title and the lines below it.
#[derive(Clone, Debug, PartialEq, Eq)]
pub struct BranchStateNoticeCell {
    pub title: String,
    pub body_lines: Vec<String>,
}

/// A text as a line in a line style.
pub open spec fn text_line(content: Seq<char>, style: Style) -> styled::LineView {
    styled::LineView { spans: styled::raw_spans(content), style }
}

/// A line of the body: bold where it tells of the token usage of the previous thread.
pub open spec fn body_line(content: Seq<char>, style: Style) -> styled::LineView {
    if branch_chrome::PREVIOUS_THREAD_TOKEN_USAGE_PREFIX@.is_prefix_of(content) {
        text_line(content, styled::modified(style, styled::BOLD))
    } else {
        text_line(content, style)
    }
}

/// The lines of the body.
pub open spec fn body_views(body: Seq<Seq<char>>, style: Style) -> Seq<styled::LineView> {
    Seq::new(body.len(), |i: int| body_line(body[i], style))
}

/// The lines of a notice: the bold title and the body between two empty lines.
pub open spec fn notice_views(
    title: Seq<char>,
    body: Seq<Seq<char>>,
    style: Style,
) -> Seq<styled::LineView> {
    seq![text_line(""@, style), text_line(title, styled::modified(style, styled::BOLD))]
        + body_views(body, style) + seq![text_line(""@, style)]
}

/// The lines of a notice without styles.
pub open spec fn raw_views(title: Seq<char>, body: Seq<Seq<char>>) -> Seq<styled::LineView> {
    seq![text_line(title, styled::no_style())] + Seq::new(
        body.len(),
        |i: int| text_line(body[i], styled::no_style()),
    )
}

impl BranchStateNoticeCell {
    /// A notice.
    pub fn new(title: String, body_lines: Vec<String>) -> (cell: BranchStateNoticeCell)
        ensures
            cell.title == title,
            cell.body_lines == body_lines,
    {
        BranchStateNoticeCell { title, body_lines }
    }

    /// The lines of this notice in the style of notices. They are the same for every width.
    pub fn display_lines(&self, _width: u16, style: Style) -> (lines: Vec<Line>)
        ensures
            styled::line_views(lines@) == notice_views(
                self.title@,
                strings::texts(self.body_lines@),
                style,
            ),
    {
        let ghost body = strings::texts(self.body_lines@);
        let mut lines: Vec<Line> = Vec::new();
        lines.push(Line::of_text("", style));
        lines.push(Line::of_text(self.title.as_str(), style.with_modifier(styled::BOLD)));
        let ghost top = styled::line_views(lines@);
        assert(top =~= seq![
            text_line(""@, style),
            text_line(self.title@, styled::modified(style, styled::BOLD)),
        ]);
        let mut index: usize = 0;
        assert(styled::line_views(lines@) =~= top + body_views(body, style).take(0));
        while index < self.body_lines.len()
            invariant
                index <= self.body_lines@.len(),
                body == strings::texts(self.body_lines@),
                styled::line_views(lines@) =~= top + body_views(body, style).take(index as int),
            decreases self.body_lines@.len() - index,
        {
            let text = self.body_lines[index].as_str();
            let ghost before = styled::line_views(lines@);
            assert(body[index as int] == text@);
            let body_style = if starts_with(
                text,
                branch_chrome::PREVIOUS_THREAD_TOKEN_USAGE_PREFIX,
            ) {
                style.with_modifier(styled::BOLD)
            } else {
                style
            };
            lines.push(Line::of_text(text, body_style));
            assert(styled::line_views(lines@) =~= before.push(body_line(text@, style)));
            assert(body_views(body, style).take(index as int + 1) =~= body_views(body, style).take(
                index as int,
            ).push(body_line(text@, style)));
            index = index + 1;
        }
        assert(body_views(body, style).take(body.len() as int) =~= body_views(body, style));
        let ghost before = styled::line_views(lines@);
        lines.push(Line::of_text("", style));
        assert(styled::line_views(lines@) =~= before + seq![text_line(""@, style)]);
        lines
    }

    /// The lines of this notice without styles.
    pub fn raw_lines(&self) -> (lines: Vec<Line>)
        ensures
            styled::line_views(lines@) == raw_views(self.title@, strings::texts(self.body_lines@)),
    {
        let ghost all = raw_views(self.title@, strings::texts(self.body_lines@));
        let mut lines: Vec<Line> = Vec::new();
        lines.push(Line::of_text(self.title.as_str(), Style::plain()));
        let mut index: usize = 0;
        assert(styled::line_views(lines@) =~= all.take(1));
        while index < self.body_lines.len()
            invariant
                index <= self.body_lines@.len(),
                all == raw_views(self.title@, strings::texts(self.body_lines@)),
                styled::line_views(lines@) =~= all.take(index as int + 1),
            decreases self.body_lines@.len() - index,
        {
            let ghost before = styled::line_views(lines@);
            lines.push(Line::of_text(self.body_lines[index].as_str(), Style::plain()));
            assert(strings::texts(self.body_lines@)[index as int]
                == self.body_lines@[index as int]@);
            assert(all[index as int + 1] == text_line(
                self.body_lines@[index as int]@,
                styled::no_style(),
            ));
            assert(styled::line_views(lines@) =~= before.push(all[index as int + 1]));
            index = index + 1;
        }
        assert(styled::line_views(lines@) =~= all);
        lines
    }
}

/// A notice is its title and its body between two empty lines. The title stands out, and of
/// the body only what tells of the usage of the thread before.
pub proof fn law_notices_stand_between_empty_lines(
    title: Seq<char>,
    body: Seq<Seq<char>>,
    style: Style,
    i: int,
)
    requires
        0 <= i < body.len(),
    ensures
        ({
            let lines = notice_views(title, body, style);
            let bold = styled::modified(style, 1);
            &&& lines.len() == body.len() + 3
            &&& lines[0].style == style && lines[0].spans == styled::raw_spans(""@)
            &&& lines[1].style == bold && lines[1].spans == styled::raw_spans(title)
            &&& lines[2 + i].spans == styled::raw_spans(body[i])
            &&& "Previous thread token usage:"@.is_prefix_of(body[i]) ==> lines[2 + i].style == bold
            &&& !"Previous thread token usage:"@.is_prefix_of(body[i]) ==> lines[2 + i].style
                == style
            &&& lines.last().style == style && lines.last().spans == styled::raw_spans(""@)
        }),
        ({
            let lines = raw_views(title, body);
            &&& lines.len() == body.len() + 1
            &&& lines[0].spans == styled::raw_spans(title)
            &&& lines[1 + i].spans == styled::raw_spans(body[i])
            &&& lines[1 + i].style == styled::no_style()
            &&& lines[0].style == styled::no_style()
        }),
{
}

} // verus!
