//! Styled lines of text, as they are handed to the terminal.
use crate::strings;
use vstd::prelude::*;
use vstd::string::*;

verus! {

/// A terminal colour.
#[derive(Clone, Copy, Debug, PartialEq, Eq, Structural)]
pub enum Color {
    Reset,
    Black,
    Red,
    Green,
    Yellow,
    Blue,
    Magenta,
    Cyan,
    Gray,
    DarkGray,
    LightRed,
    LightGreen,
    LightYellow,
    LightBlue,
    LightMagenta,
    LightCyan,
    White,
    Rgb(u8, u8, u8),
    Indexed(u8),
}

/// The modifier bit of bold text.
pub const BOLD: u16 = 1;

/// The modifier bit of dim text.
pub const DIM: u16 = 2;

/// Colours and modifiers. `add_modifier` and `sub_modifier` are sets of modifier bits.
#[derive(Clone, Copy, Debug, PartialEq, Eq, Structural)]
pub struct Style {
    pub fg: Option<Color>,
    pub bg: Option<Color>,
    pub add_modifier: u16,
    pub sub_modifier: u16,
}

/// A piece of text in one style.
#[derive(Clone, Debug, PartialEq, Eq)]
pub struct Span {
    pub content: String,
    pub style: Style,
}

/// A line of spans over a line style.
#[derive(Clone, Debug, PartialEq, Eq)]
pub struct Line {
    pub spans: Vec<Span>,
    pub style: Style,
}

/// What a span holds.
pub struct SpanView {
    pub content: Seq<char>,
    pub style: Style,
}

/// What a line holds.
pub struct LineView {
    pub spans: Seq<SpanView>,
    pub style: Style,
}

impl View for Span {
    type V = SpanView;

    open spec fn view(&self) -> SpanView {
        SpanView { content: self.content@, style: self.style }
    }
}

impl View for Line {
    type V = LineView;

    open spec fn view(&self) -> LineView {
        LineView { spans: span_views(self.spans@), style: self.style }
    }
}

/// The views of a sequence of spans.
pub open spec fn span_views(spans: Seq<Span>) -> Seq<SpanView> {
    Seq::new(spans.len(), |i: int| spans[i]@)
}

/// The views of a sequence of lines.
pub open spec fn line_views(lines: Seq<Line>) -> Seq<LineView> {
    Seq::new(lines.len(), |i: int| lines[i]@)
}

/// The contents of spans.
pub open spec fn contents(spans: Seq<SpanView>) -> Seq<Seq<char>> {
    Seq::new(spans.len(), |i: int| spans[i].content)
}

/// The text of a line.
pub open spec fn plain(line: LineView) -> Seq<char> {
    strings::concatenated(contents(line.spans))
}

/// The texts of lines.
pub open spec fn plain_lines(lines: Seq<LineView>) -> Seq<Seq<char>> {
    Seq::new(lines.len(), |i: int| plain(lines[i]))
}

/// The style that changes nothing.
pub open spec fn no_style() -> Style {
    Style { fg: None, bg: None, add_modifier: 0, sub_modifier: 0 }
}

/// A style with a modifier added, and no longer taken away.
pub open spec fn modified(style: Style, modifier: u16) -> Style {
    Style {
        add_modifier: style.add_modifier | modifier,
        sub_modifier: style.sub_modifier & !modifier,
        ..style
    }
}

/// A style in cyan.
pub open spec fn in_cyan(style: Style) -> Style {
    Style { fg: Some(Color::Cyan), ..style }
}

/// An unstyled span.
pub open spec fn raw_span(content: Seq<char>) -> SpanView {
    SpanView { content, style: no_style() }
}

/// A text as the spans of a line: one unstyled span for each of its lines.
pub open spec fn raw_spans(text: Seq<char>) -> Seq<SpanView> {
    strings::text_lines(text).map_values(|line: Seq<char>| raw_span(line))
}

/// `ratatui::style::Style::add_modifier` on the modifier bits of a style: the bits that
/// the style adds gain the modifier, and the bits that it takes away lose it.
#[verifier::external_body]
fn add_modifier_bits(add: u16, sub: u16, modifier: u16) -> (bits: (u16, u16))
    ensures
        bits.0 == add | modifier,
        bits.1 == sub & !modifier,
{
    let mut style = ratatui::style::Style::new();
    style.add_modifier = ratatui::style::Modifier::from_bits_retain(add);
    style.sub_modifier = ratatui::style::Modifier::from_bits_retain(sub);
    let style = style.add_modifier(ratatui::style::Modifier::from_bits_retain(modifier));
    (style.add_modifier.bits(), style.sub_modifier.bits())
}

/// `ratatui::text::Line::raw`: a line has one unstyled span for each line of the text,
/// so that an empty text gives a line without spans. Handed out are the contents.
#[verifier::external_body]
fn raw_line_contents(text: &str) -> (contents: Vec<String>)
    ensures
        strings::texts(contents@) == strings::text_lines(text@),
{
    let line = ratatui::text::Line::raw(text);
    line.spans.into_iter().map(|span| span.content.into_owned()).collect()
}

impl Style {
    /// The style that changes nothing.
    pub fn plain() -> (style: Style)
        ensures
            style == no_style(),
    {
        Style { fg: None, bg: None, add_modifier: 0, sub_modifier: 0 }
    }

    /// This style with a modifier added.
    pub fn with_modifier(self, modifier: u16) -> (style: Style)
        ensures
            style == modified(self, modifier),
    {
        let bits = add_modifier_bits(self.add_modifier, self.sub_modifier, modifier);
        Style { fg: self.fg, bg: self.bg, add_modifier: bits.0, sub_modifier: bits.1 }
    }

    /// This style in cyan.
    pub fn cyan(self) -> (style: Style)
        ensures
            style == in_cyan(self),
    {
        Style {
            fg: Some(Color::Cyan),
            bg: self.bg,
            add_modifier: self.add_modifier,
            sub_modifier: self.sub_modifier,
        }
    }

    /// A style that only sets the background.
    pub fn on(color: Color) -> (style: Style)
        ensures
            style == (Style { bg: Some(color), ..no_style() }),
    {
        Style { fg: None, bg: Some(color), add_modifier: 0, sub_modifier: 0 }
    }
}

impl Span {
    /// An unstyled span.
    pub fn raw(content: &str) -> (span: Span)
        ensures
            span@ == raw_span(content@),
    {
        Span { content: content.to_owned(), style: Style::plain() }
    }

    /// A span in a style.
    pub fn styled(content: &str, style: Style) -> (span: Span)
        ensures
            span@ == (SpanView { content: content@, style }),
    {
        Span { content: content.to_owned(), style }
    }

    /// A copy of this span.
    pub fn copy(&self) -> (span: Span)
        ensures
            span@ == self@,
    {
        Span { content: self.content.clone(), style: self.style }
    }
}

impl Line {
    /// A line of spans in a line style.
    pub fn of_spans(spans: Vec<Span>, style: Style) -> (line: Line)
        ensures
            line@ == (LineView { spans: span_views(spans@), style }),
    {
        Line { spans, style }
    }

    /// A text as a line in a line style.
    pub fn of_text(text: &str, style: Style) -> (line: Line)
        ensures
            line@ == (LineView { spans: raw_spans(text@), style }),
    {
        let contents = raw_line_contents(text);
        let mut spans: Vec<Span> = Vec::new();
        let mut index: usize = 0;
        while index < contents.len()
            invariant
                index <= contents@.len(),
                strings::texts(contents@) == strings::text_lines(text@),
                span_views(spans@) =~= raw_spans(text@).take(index as int),
            decreases contents@.len() - index,
        {
            let ghost before = span_views(spans@);
            spans.push(Span::raw(contents[index].as_str()));
            assert(strings::texts(contents@)[index as int] == contents@[index as int]@);
            assert(span_views(spans@) =~= before.push(raw_span(contents@[index as int]@)));
            index = index + 1;
        }
        assert(strings::texts(contents@).len() == contents@.len());
        assert(span_views(spans@) =~= raw_spans(text@));
        Line { spans, style }
    }

    /// A copy of this line.
    pub fn copy(&self) -> (line: Line)
        ensures
            line@ == self@,
    {
        let mut spans: Vec<Span> = Vec::new();
        let mut index: usize = 0;
        while index < self.spans.len()
            invariant
                index <= self.spans@.len(),
                span_views(spans@) =~= span_views(self.spans@).take(index as int),
            decreases self.spans@.len() - index,
        {
            let ghost before = span_views(spans@);
            spans.push(self.spans[index].copy());
            assert(span_views(spans@) =~= before.push(self.spans@[index as int]@));
            index = index + 1;
        }
        assert(span_views(spans@) =~= span_views(self.spans@));
        Line { spans, style: self.style }
    }
}

/// The text of a line.
pub fn line_plain_text(line: &Line) -> (text: String)
    ensures
        text@ == plain(line@),
{
    let mut text = String::new();
    let mut index: usize = 0;
    let ghost parts = contents(line@.spans);
    assert(parts.take(0) =~= Seq::<Seq<char>>::empty());
    while index < line.spans.len()
        invariant
            index <= line.spans@.len(),
            parts == contents(line@.spans),
            text@ == strings::concatenated(parts.take(index as int)),
        decreases line.spans@.len() - index,
    {
        assert(parts.take(index as int + 1).drop_last() =~= parts.take(index as int));
        assert(parts.take(index as int + 1).last() == line.spans@[index as int].content@);
        text.append(line.spans[index].content.as_str());
        index = index + 1;
    }
    assert(parts.take(parts.len() as int) =~= parts);
    text
}

/// The texts of lines.
pub fn plain_texts(lines: &[Line]) -> (plain_text: Vec<String>)
    ensures
        strings::texts(plain_text@) == plain_lines(line_views(lines@)),
{
    let mut plain_text: Vec<String> = Vec::new();
    let mut index: usize = 0;
    let ghost all = plain_lines(line_views(lines@));
    while index < lines.len()
        invariant
            index <= lines@.len(),
            all == plain_lines(line_views(lines@)),
            strings::texts(plain_text@) =~= all.take(index as int),
        decreases lines@.len() - index,
    {
        let ghost before = strings::texts(plain_text@);
        plain_text.push(line_plain_text(&lines[index]));
        assert(line_views(lines@)[index as int] == lines@[index as int]@);
        assert(strings::texts(plain_text@) =~= before.push(all[index as int]));
        index = index + 1;
    }
    assert(strings::texts(plain_text@) =~= all);
    plain_text
}

/// Whether a line holds no text.
pub fn line_is_empty(line: &Line) -> (empty: bool)
    ensures
        empty == (plain(line@).len() == 0),
{
    let text = line_plain_text(line);
    text.as_str().is_empty()
}

// ---------------------------------------------------------------------------
// Rendering
// ---------------------------------------------------------------------------
/// Whether a renderer takes every text and computes a function of it.
pub open spec fn renders_as<F: Fn(&str) -> Vec<Line>>(
    render: F,
    model: spec_fn(Seq<char>) -> Seq<LineView>,
) -> bool {
    &&& forall|text: &str| call_requires(render, (text,))
    &&& forall|text: &str, lines: Vec<Line>| #[trigger]
        call_ensures(render, (text,), lines) ==> line_views(lines@) == model(text@)
}

/// Whether a renderer takes every text and computes some function of it.
pub open spec fn is_renderer<F: Fn(&str) -> Vec<Line>>(render: F) -> bool {
    exists|model: spec_fn(Seq<char>) -> Seq<LineView>| renders_as(render, model)
}

/// Whether a truncation takes every text and computes a function of it and the limit.
pub open spec fn truncates_as<T: Fn(&str, usize) -> String>(
    truncate: T,
    model: spec_fn(Seq<char>, int) -> Seq<char>,
) -> bool {
    &&& forall|text: &str, limit: usize| call_requires(truncate, (text, limit))
    &&& forall|text: &str, limit: usize, kept: String| #[trigger]
        call_ensures(truncate, (text, limit), kept) ==> kept@ == model(text@, limit as int)
}

/// Whether a truncation takes every text and computes some function of it and the limit.
pub open spec fn is_truncation<T: Fn(&str, usize) -> String>(truncate: T) -> bool {
    exists|model: spec_fn(Seq<char>, int) -> Seq<char>| truncates_as(truncate, model)
}

/// The lines of a rendered text without their styles.
pub fn render_markdown_to_plain_lines<F: Fn(&str) -> Vec<Line>>(
    text: &str,
    append_markdown: &F,
) -> (lines: Vec<String>)
    requires
        is_renderer(*append_markdown),
    ensures
        forall|model: spec_fn(Seq<char>) -> Seq<LineView>| #[trigger]
            renders_as(*append_markdown, model) ==> strings::texts(lines@) == plain_lines(
                model(text@),
            ),
{
    let rendered = append_markdown(text);
    plain_texts(&rendered)
}

/// Adding a modifier sets it and keeps the colours, and colouring a text changes nothing but
/// its colour.
pub proof fn law_styles_change_one_thing(style: Style, modifier: u16)
    ensures
        modified(style, modifier).add_modifier & modifier == modifier,
        modified(style, modifier).sub_modifier & modifier == 0,
        modified(style, modifier).fg == style.fg,
        modified(style, modifier).bg == style.bg,
        in_cyan(style).fg == Some(Color::Cyan),
        in_cyan(style).bg == style.bg,
        in_cyan(style).add_modifier == style.add_modifier,
        in_cyan(style).sub_modifier == style.sub_modifier,
{
    let add = style.add_modifier;
    let sub = style.sub_modifier;
    assert((add | modifier) & modifier == modifier) by (bit_vector);
    assert((sub & !modifier) & modifier == 0) by (bit_vector);
}

} // verus!
