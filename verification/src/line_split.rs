//! Splitting styled lines at byte offsets.
use crate::history_cell;
use crate::history_cell::HyperlinkLine;
use crate::strings;
use crate::styled;
use crate::styled::{Line, Span};
use crate::text;
use crate::text::{byte_count, locate_char, to_chars, to_text};
use vstd::prelude::*;
use vstd::string::*;

verus! {

// ---------------------------------------------------------------------------
// Boundaries
// ---------------------------------------------------------------------------
/// The least boundary at or after a byte offset.
pub fn next_char_boundary(text: &str, byte_offset: usize) -> (boundary: usize)
    ensures
        boundary == text::ceil_boundary(text@, byte_offset as int),
{
    let chars = to_chars(text);
    let total: usize = byte_count(text);
    let found = locate_char(&chars, total, byte_offset);
    proof {
        text::lemma_char_index(text@, byte_offset as int);
        text::lemma_byte_pos_ends(text@);
    }
    if found.1 == byte_offset {
        byte_offset
    } else if found.0 < chars.len() {
        proof {
            text::lemma_byte_pos_step(text@, found.0 as int);
            text::lemma_byte_pos_grows(text@, found.0 as int + 1, text@.len() as int);
        }
        found.1 + text::width_of(chars[found.0])
    } else {
        total
    }
}

/// The end of the character that covers a byte offset; the end of the text where none
/// does. There always is one.
pub fn split_offset_after_anchor(text: &str, source_byte_offset: usize) -> (end: Option<usize>)
    ensures
        end matches Some(end) && end == text::char_end(text@, source_byte_offset as int),
{
    Some(crate::structure::next_char_boundary(text, source_byte_offset))
}

// ---------------------------------------------------------------------------
// Spans
// ---------------------------------------------------------------------------
/// The number of bytes of the text of spans.
pub open spec fn spans_len(spans: Seq<styled::SpanView>) -> int {
    text::byte_len(strings::concatenated(styled::contents(spans))) as int
}

/// The number of characters of a text before the least boundary at or after an offset.
pub open spec fn chars_before(content: Seq<char>, offset: int) -> int {
    text::char_index(content, text::ceil_boundary(content, offset))
}

/// A span with other text.
pub open spec fn with_text(span: styled::SpanView, content: Seq<char>) -> styled::SpanView {
    styled::SpanView { content, style: span.style }
}

/// The spans before a byte offset and those at or behind it. A span on both sides is cut
/// at the least boundary at or after the offset.
pub open spec fn split_spans(spans: Seq<styled::SpanView>, at: int) -> (
    Seq<styled::SpanView>,
    Seq<styled::SpanView>,
)
    decreases spans.len(),
{
    if spans.len() == 0 {
        (spans, spans)
    } else {
        let (left, right) = split_spans(spans.drop_last(), at);
        let start = spans_len(spans.drop_last());
        let span = spans.last();
        let cut = chars_before(span.content, at - start);
        if at <= start {
            (left, right.push(span))
        } else if at >= start + text::byte_len(span.content) {
            (left.push(span), right)
        } else {
            (
                left.push(with_text(span, span.content.take(cut))),
                if cut < span.content.len() {
                    right.push(with_text(span, span.content.skip(cut)))
                } else {
                    right
                },
            )
        }
    }
}

/// The two parts of a line before and behind a byte offset.
pub open spec fn split_line(line: styled::LineView, at: int) -> (
    styled::LineView,
    styled::LineView,
) {
    let (left, right) = split_spans(line.spans, at);
    (
        styled::LineView { spans: left, style: line.style },
        styled::LineView { spans: right, style: line.style },
    )
}

proof fn lemma_concatenated_push(parts: Seq<Seq<char>>, part: Seq<char>)
    ensures
        strings::concatenated(parts.push(part)) == strings::concatenated(parts) + part,
{
    assert(parts.push(part).drop_last() =~= parts);
}

pub proof fn lemma_contents_push(spans: Seq<styled::SpanView>, span: styled::SpanView)
    ensures
        styled::contents(spans.push(span)) == styled::contents(spans).push(span.content),
        strings::concatenated(styled::contents(spans.push(span))) == strings::concatenated(
            styled::contents(spans),
        ) + span.content,
{
    assert(styled::contents(spans.push(span)) =~= styled::contents(spans).push(span.content));
    lemma_concatenated_push(styled::contents(spans), span.content);
}

proof fn lemma_spans_len(spans: Seq<styled::SpanView>)
    requires
        spans.len() > 0,
    ensures
        spans_len(spans) == spans_len(spans.drop_last()) + text::byte_len(spans.last().content),
        styled::contents(spans).drop_last() == styled::contents(spans.drop_last()),
{
    assert(styled::contents(spans).drop_last() =~= styled::contents(spans.drop_last()));
    text::lemma_byte_len_add(
        strings::concatenated(styled::contents(spans.drop_last())),
        spans.last().content,
    );
}

proof fn lemma_cut(content: Seq<char>, offset: int)
    requires
        0 < offset < text::byte_len(content),
    ensures
        0 < chars_before(content, offset) <= content.len(),
        text::byte_pos(content, chars_before(content, offset)) == text::ceil_boundary(
            content,
            offset,
        ),
{
    text::law_ceil_boundary(content, offset);
    let end = text::ceil_boundary(content, offset);
    let index = choose|index: int|
        0 <= index <= content.len() && #[trigger] text::byte_pos(content, index) == end;
    text::lemma_char_index_of_pos(content, index);
    text::lemma_byte_pos_ends(content);
}

/// Splitting a line keeps its text, and cuts it at the least boundary at or after the
/// offset, or at its end.
pub proof fn law_split_keeps_the_text(line: styled::LineView, at: int)
    requires
        0 <= at,
    ensures
        styled::plain(split_line(line, at).0) + styled::plain(split_line(line, at).1)
            == styled::plain(line),
        text::byte_len(styled::plain(split_line(line, at).0)) == text::ceil_boundary(
            styled::plain(line),
            at,
        ),
{
    lemma_split_spans(line.spans, at);
    let whole = styled::plain(line);
    let left = styled::plain(split_line(line, at).0);
    let total = text::byte_len(whole);
    text::lemma_byte_pos_ends(whole);
    assert(whole.take(left.len() as int) =~= left);
    text::lemma_char_index(whole, at);
    if at >= total {
        assert(text::floor_boundary(whole, at) == total);
    } else {
        text::law_ceil_boundary(whole, at);
        text::lemma_char_index_of_pos(whole, left.len() as int);
        let end = text::ceil_boundary(whole, at);
        let index = choose|index: int|
            0 <= index <= whole.len() && #[trigger] text::byte_pos(whole, index) == end;
        if index < left.len() {
            text::lemma_byte_pos_grows(whole, index, left.len() - 1);
        } else {
            text::lemma_byte_pos_grows(whole, left.len() as int, index);
        }
    }
}

proof fn lemma_split_spans(spans: Seq<styled::SpanView>, at: int)
    requires
        0 <= at,
    ensures
        ({
            let whole = strings::concatenated(styled::contents(spans));
            let left = strings::concatenated(styled::contents(split_spans(spans, at).0));
            let right = strings::concatenated(styled::contents(split_spans(spans, at).1));
            &&& left + right == whole
            &&& at >= text::byte_len(whole) ==> left == whole
            &&& at < text::byte_len(whole) ==> {
                &&& at <= text::byte_len(left)
                &&& left.len() > 0 ==> text::byte_pos(whole, left.len() - 1) < at
            }
        }),
    decreases spans.len(),
{
    let whole = strings::concatenated(styled::contents(spans));
    let left = strings::concatenated(styled::contents(split_spans(spans, at).0));
    let right = strings::concatenated(styled::contents(split_spans(spans, at).1));
    if spans.len() == 0 {
        assert(left + right =~= whole);
        assert(left =~= whole);
    } else {
        let head = spans.drop_last();
        let span = spans.last();
        let content = span.content;
        lemma_split_spans(head, at);
        lemma_spans_len(spans);
        let (old_left, old_right) = split_spans(head, at);
        let a = strings::concatenated(styled::contents(old_left));
        let b = strings::concatenated(styled::contents(old_right));
        let start = spans_len(head);
        let before = strings::concatenated(styled::contents(head));
        assert(whole == before + content);
        text::lemma_byte_len_add(before, content);
        if at <= start {
            lemma_contents_push(old_right, span);
            assert(left + right =~= whole);
            if at == start {
                // The text before the offset is the whole head.
                assert(a == before);
                if a.len() > 0 {
                    assert(whole.take(a.len() - 1) =~= a.take(a.len() - 1));
                    text::lemma_byte_pos_ends(a);
                    text::lemma_byte_pos_grows(a, a.len() - 1, a.len() as int);
                }
            } else {
                if a.len() > 0 {
                    assert(whole.take(a.len() - 1) =~= before.take(a.len() - 1));
                }
            }
            if at >= text::byte_len(whole) {
                text::lemma_byte_pos_ends(content);
                text::lemma_byte_pos_grows(content, 0, content.len() as int);
                assert(content =~= Seq::<char>::empty());
                assert(left =~= whole);
            }
        } else {
            assert(a == before);
            assert(b =~= Seq::<char>::empty()) by {
                assert((a + b).len() == a.len() + b.len());
            }
            let cut = chars_before(content, at - start);
            if at >= start + text::byte_len(content) {
                lemma_contents_push(old_left, span);
                assert(left + right =~= whole);
                assert(left =~= whole);
            } else {
                lemma_cut(content, at - start);
                text::law_ceil_boundary(content, at - start);
                lemma_contents_push(old_left, with_text(span, content.take(cut)));
                lemma_contents_push(old_right, with_text(span, content.skip(cut)));
                assert(left == before + content.take(cut));
                assert(right =~= content.skip(cut));
                assert(left + right =~= whole);
                text::lemma_byte_len_add(before, content.take(cut));
                assert(whole.take(left.len() - 1) =~= before + content.take(cut - 1));
                text::lemma_byte_len_add(before, content.take(cut - 1));
                text::lemma_char_index(content, at - start);
                let covering = text::char_index(content, at - start);
                text::lemma_char_index_of_pos(content, covering);
                text::lemma_char_index_of_pos(content, covering + 1);
                text::lemma_byte_pos_step(content, cut - 1);
                if cut == covering {
                    text::lemma_byte_pos_step(content, cut - 1);
                } else {
                    assert(cut == covering + 1);
                }
            }
        }
    }
}

/// The two parts of a text before and behind the least boundary at or after an offset.
fn split_text(content: &str, offset: usize) -> (parts: (String, String))
    requires
        0 < offset < text::byte_len(content@),
    ensures
        parts.0@ == content@.take(chars_before(content@, offset as int)),
        parts.1@ == content@.skip(chars_before(content@, offset as int)),
{
    let end: usize = next_char_boundary(content, offset);
    let chars = to_chars(content);
    let index: usize = locate_char(&chars, byte_count(content), end).0;
    proof {
        lemma_cut(content@, offset as int);
    }
    let left = to_text(&chars, 0, index);
    let right = to_text(&chars, index, chars.len());
    assert(left@ =~= content@.take(index as int));
    assert(right@ =~= content@.skip(index as int));
    (left, right)
}

/// The two parts of a line before and behind a byte offset.
pub fn split_line_at_byte_offset(line: &Line, split_at: usize) -> (parts: (Line, Line))
    ensures
        (parts.0@, parts.1@) == split_line(line@, split_at as int),
{
    let mut left_spans: Vec<Span> = Vec::new();
    let mut right_spans: Vec<Span> = Vec::new();
    let ghost all = styled::span_views(line.spans@);
    let mut remaining: usize = split_at;
    let mut index: usize = 0;
    assert(all.take(0) =~= Seq::<styled::SpanView>::empty());
    assert(styled::span_views(left_spans@) =~= all.take(0));
    assert(styled::span_views(right_spans@) =~= all.take(0));
    assert(styled::contents(all.take(0)) =~= Seq::<Seq<char>>::empty());
    while index < line.spans.len()
        invariant
            index <= line.spans@.len(),
            all == styled::span_views(line.spans@),
            (styled::span_views(left_spans@), styled::span_views(right_spans@)) == split_spans(
                all.take(index as int),
                split_at as int,
            ),
            remaining == if spans_len(all.take(index as int)) <= split_at {
                split_at - spans_len(all.take(index as int))
            } else {
                0
            },
        decreases line.spans@.len() - index,
    {
        let span = &line.spans[index];
        let ghost taken = all.take(index as int + 1);
        let ghost old_left = styled::span_views(left_spans@);
        let ghost old_right = styled::span_views(right_spans@);
        proof {
            assert(taken.drop_last() =~= all.take(index as int));
            assert(taken.last() == span@);
            lemma_spans_len(taken);
        }
        let span_len: usize = byte_count(span.content.as_str());
        if remaining == 0 {
            right_spans.push(span.copy());
            assert(styled::span_views(right_spans@) =~= old_right.push(span@));
        } else if remaining >= span_len {
            left_spans.push(span.copy());
            assert(styled::span_views(left_spans@) =~= old_left.push(span@));
            remaining = remaining - span_len;
        } else {
            proof {
                lemma_cut(span.content@, remaining as int);
            }
            let (left_text, right_text) = split_text(span.content.as_str(), remaining);
            let ghost cut = chars_before(span.content@, remaining as int);
            let whole_text = right_text.as_str().is_empty();
            left_spans.push(Span { content: left_text, style: span.style });
            assert(styled::span_views(left_spans@) =~= old_left.push(
                with_text(span@, span.content@.take(cut)),
            ));
            if !whole_text {
                right_spans.push(Span { content: right_text, style: span.style });
                assert(styled::span_views(right_spans@) =~= old_right.push(
                    with_text(span@, span.content@.skip(cut)),
                ));
            }
            remaining = 0;
        }
        index = index + 1;
    }
    assert(all.take(line.spans@.len() as int) =~= all);
    (
        Line::of_spans(left_spans, line.style),
        Line::of_spans(right_spans, line.style),
    )
}

// ---------------------------------------------------------------------------
// Leading spaces
// ---------------------------------------------------------------------------
/// A text without its leading spaces.
pub open spec fn without_leading_spaces(content: Seq<char>) -> Seq<char>
    decreases content.len(),
{
    if content.len() > 0 && content[0] == ' ' {
        without_leading_spaces(content.skip(1))
    } else {
        content
    }
}

/// Spans without their leading spaces; spans of which nothing is left are dropped.
pub open spec fn spans_without_leading_spaces(spans: Seq<styled::SpanView>) -> Seq<
    styled::SpanView,
>
    decreases spans.len(),
{
    if spans.len() == 0 {
        spans
    } else {
        let rest = without_leading_spaces(spans[0].content);
        if rest.len() == 0 {
            spans_without_leading_spaces(spans.skip(1))
        } else {
            seq![with_text(spans[0], rest)] + spans.skip(1)
        }
    }
}

/// A line without its leading spaces and its hyperlinks.
pub open spec fn line_without_leading_spaces(
    line: history_cell::HyperlinkLineView,
) -> history_cell::HyperlinkLineView {
    history_cell::unlinked(
        styled::LineView {
            spans: spans_without_leading_spaces(line.line.spans),
            style: line.line.style,
        },
    )
}

/// A text without its leading spaces.
fn trim_leading_spaces(content: &str) -> (rest: String)
    ensures
        rest@ == without_leading_spaces(content@),
{
    let chars = to_chars(content);
    let mut index: usize = 0;
    assert(chars@.skip(0) =~= chars@);
    while index < chars.len() && chars[index] == ' '
        invariant
            index <= chars@.len(),
            without_leading_spaces(chars@) == without_leading_spaces(chars@.skip(index as int)),
        decreases chars@.len() - index,
    {
        assert(chars@.skip(index as int)[0] == chars@[index as int]);
        assert(chars@.skip(index as int).skip(1) =~= chars@.skip(index as int + 1));
        index = index + 1;
    }
    assert(index < chars@.len() ==> chars@.skip(index as int)[0] == chars@[index as int]);
    let rest = to_text(&chars, index, chars.len());
    assert(rest@ =~= chars@.skip(index as int));
    rest
}

/// A line without its leading spaces and its hyperlinks.
pub fn trim_hyperlink_line_leading_spaces(line: &HyperlinkLine) -> (trimmed: HyperlinkLine)
    ensures
        trimmed@ == line_without_leading_spaces(line@),
{
    let ghost all = styled::span_views(line.line.spans@);
    let mut spans: Vec<Span> = Vec::new();
    let mut trimming = true;
    let mut index: usize = 0;
    assert(all.skip(0) =~= all);
    assert(styled::span_views(spans@) + spans_without_leading_spaces(all)
        =~= spans_without_leading_spaces(all));
    while index < line.line.spans.len()
        invariant
            index <= line.line.spans@.len(),
            all == styled::span_views(line.line.spans@),
            trimming ==> spans@.len() == 0 && spans_without_leading_spaces(all)
                == spans_without_leading_spaces(all.skip(index as int)),
            !trimming ==> spans_without_leading_spaces(all) == styled::span_views(spans@)
                + all.skip(index as int),
        decreases line.line.spans@.len() - index,
    {
        let span = &line.line.spans[index];
        let ghost tail = all.skip(index as int);
        let ghost before = styled::span_views(spans@);
        assert(tail[0] == span@);
        assert(tail.skip(1) =~= all.skip(index as int + 1));
        if !trimming {
            spans.push(span.copy());
            assert(styled::span_views(spans@) =~= before.push(span@));
            assert(styled::span_views(spans@) + all.skip(index as int + 1) =~= before + tail);
        } else {
            let rest = trim_leading_spaces(span.content.as_str());
            if !rest.as_str().is_empty() {
                trimming = false;
                let ghost own = with_text(span@, rest@);
                spans.push(Span { content: rest, style: span.style });
                assert(styled::span_views(spans@) =~= seq![own]);
            }
        }
        index = index + 1;
    }
    assert(styled::span_views(spans@) =~= spans_without_leading_spaces(all));
    HyperlinkLine::new(Line::of_spans(spans, line.line.style))
}

proof fn lemma_concatenated_front(spans: Seq<styled::SpanView>)
    requires
        spans.len() > 0,
    ensures
        strings::concatenated(styled::contents(spans)) == spans[0].content + strings::concatenated(
            styled::contents(spans.skip(1)),
        ),
    decreases spans.len(),
{
    let parts = styled::contents(spans);
    assert(parts.drop_last() =~= styled::contents(spans.drop_last()));
    if spans.len() == 1 {
        assert(parts.drop_last() =~= Seq::<Seq<char>>::empty());
        assert(styled::contents(spans.skip(1)) =~= Seq::<Seq<char>>::empty());
        reveal_with_fuel(strings::concatenated, 2);
        assert(parts.last() == spans[0].content);
        assert(strings::concatenated(parts) =~= spans[0].content);
        assert(spans[0].content + Seq::<char>::empty() =~= spans[0].content);
    } else {
        let head = spans.drop_last();
        lemma_concatenated_front(head);
        assert(head.skip(1) =~= spans.skip(1).drop_last());
        assert(styled::contents(spans.skip(1)).drop_last() =~= styled::contents(head.skip(1)));
        assert(strings::concatenated(parts) =~= spans[0].content + strings::concatenated(
            styled::contents(spans.skip(1)),
        ));
    }
}

proof fn lemma_leading_spaces_add(a: Seq<char>, b: Seq<char>)
    ensures
        without_leading_spaces(a + b) == if without_leading_spaces(a).len() == 0 {
            without_leading_spaces(b)
        } else {
            without_leading_spaces(a) + b
        },
    decreases a.len(),
{
    if a.len() == 0 {
        assert(a + b =~= b);
    } else {
        assert((a + b)[0] == a[0]);
        assert((a + b).skip(1) =~= a.skip(1) + b);
        if a[0] == ' ' {
            lemma_leading_spaces_add(a.skip(1), b);
        }
    }
}

/// Trimming a line takes the leading spaces of its text away and nothing else of it.
pub proof fn law_trimming_takes_leading_spaces(spans: Seq<styled::SpanView>)
    ensures
        strings::concatenated(styled::contents(spans_without_leading_spaces(spans)))
            == without_leading_spaces(strings::concatenated(styled::contents(spans))),
    decreases spans.len(),
{
    if spans.len() == 0 {
        assert(styled::contents(spans) =~= Seq::<Seq<char>>::empty());
    } else {
        lemma_concatenated_front(spans);
        let rest = without_leading_spaces(spans[0].content);
        let tail = strings::concatenated(styled::contents(spans.skip(1)));
        lemma_leading_spaces_add(spans[0].content, tail);
        law_trimming_takes_leading_spaces(spans.skip(1));
        if rest.len() > 0 {
            let kept = spans_without_leading_spaces(spans);
            lemma_concatenated_front(kept);
            assert(kept.skip(1) =~= spans.skip(1));
        }
    }
}

proof fn lemma_nothing_behind(spans: Seq<styled::SpanView>, at: int)
    requires
        spans_len(spans) < at,
    ensures
        split_spans(spans, at).1.len() == 0,
    decreases spans.len(),
{
    if spans.len() > 0 {
        lemma_contents_push(spans.drop_last(), spans.last());
        assert(spans.drop_last().push(spans.last()) =~= spans);
        text::lemma_byte_len_add(
            strings::concatenated(styled::contents(spans.drop_last())),
            spans.last().content,
        );
        lemma_nothing_behind(spans.drop_last(), at);
    }
}

/// Splitting keeps the style of the line and of every piece of it: the left part is made of
/// the first pieces and the right part of the last ones, in their order.
pub proof fn law_split_keeps_the_styles(line: styled::LineView, at: int, i: int)
    ensures
        ({
            let (left, right) = split_line(line, at);
            let skipped = line.spans.len() - right.spans.len();
            &&& left.style == line.style
            &&& right.style == line.style
            &&& left.spans.len() <= line.spans.len()
            &&& right.spans.len() <= line.spans.len()
            &&& 0 <= i < left.spans.len() ==> left.spans[i].style == line.spans[i].style
            &&& 0 <= i < right.spans.len() ==> right.spans[i].style == line.spans[skipped + i].style
        }),
{
    lemma_split_keeps_the_styles(line.spans, at, i);
}

proof fn lemma_split_keeps_the_styles(spans: Seq<styled::SpanView>, at: int, i: int)
    ensures
        ({
            let (left, right) = split_spans(spans, at);
            let skipped = spans.len() - right.len();
            &&& left.len() <= spans.len()
            &&& right.len() <= spans.len()
            &&& 0 <= i < left.len() ==> left[i].style == spans[i].style
            &&& 0 <= i < right.len() ==> right[i].style == spans[skipped + i].style
        }),
    decreases spans.len(),
{
    if spans.len() > 0 {
        let head = spans.drop_last();
        let (left, right) = split_spans(head, at);
        lemma_split_keeps_the_styles(head, at, i);
        if at > spans_len(head) {
            lemma_nothing_behind(head, at);
            lemma_left_part_is_whole(head, at);
        } else {
            assert(0 <= i < right.len() ==> head[head.len() - right.len() + i] == spans[head.len()
                - right.len() + i]);
        }
    }
}

proof fn lemma_left_part_is_whole(spans: Seq<styled::SpanView>, at: int)
    requires
        spans_len(spans) < at,
    ensures
        split_spans(spans, at).0.len() == spans.len(),
    decreases spans.len(),
{
    if spans.len() > 0 {
        lemma_contents_push(spans.drop_last(), spans.last());
        assert(spans.drop_last().push(spans.last()) =~= spans);
        text::lemma_byte_len_add(
            strings::concatenated(styled::contents(spans.drop_last())),
            spans.last().content,
        );
        lemma_left_part_is_whole(spans.drop_last(), at);
    }
}

/// All leading spaces of a text are taken away, and nothing else.
pub proof fn law_leading_spaces_are_taken_away(count: nat, rest: Seq<char>)
    requires
        rest.len() == 0 || rest[0] != ' ',
    ensures
        without_leading_spaces(Seq::new(count, |i: int| ' ') + rest) == rest,
    decreases count,
{
    let content = Seq::new(count, |i: int| ' ') + rest;
    if count == 0 {
        assert(content =~= rest);
    } else {
        law_leading_spaces_are_taken_away((count - 1) as nat, rest);
        assert(content[0] == ' ');
        assert(content.skip(1) =~= Seq::new((count - 1) as nat, |i: int| ' ') + rest);
    }
}

} // verus!
