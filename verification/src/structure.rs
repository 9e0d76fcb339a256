//! The markdown structure around a line: the list item or the paragraph that holds it,
//! and the short summaries by which a reader recognizes it.
use crate::strings;
use crate::strings::{is_blank, is_whitespace, join, split_words, trim_start};
use crate::text;
use crate::text::{byte_count, locate_char, to_chars, to_text};
use vstd::prelude::*;
use vstd::string::*;

verus! {

/// The number of words of a summary of the head of an anchor.
pub const HEAD_SUMMARY_WORDS: usize = 8;

/// The number of words of a summary of the tail of an anchor.
pub const TAIL_SUMMARY_WORDS: usize = 6;

// ---------------------------------------------------------------------------
// List items and paragraphs
// ---------------------------------------------------------------------------
/// Whether a line starts a list item: with a dash, a star or a plus and a space, or
/// with digits, a dot or a closing bracket, and whitespace.
pub open spec fn starts_list_item(line: Seq<char>) -> bool {
    let rest = strings::trimmed_start(line);
    ||| rest.len() >= 2 && (rest[0] == '-' || rest[0] == '*' || rest[0] == '+') && rest[1] == ' '
    ||| exists|mark: int| #[trigger] numbered_at(rest, mark)
}

/// Whether a line starts with a number that ends before an index, at which a dot or a
/// closing bracket stands with whitespace behind it.
pub open spec fn numbered_at(line: Seq<char>, mark: int) -> bool {
    &&& 0 <= mark
    &&& mark + 1 < line.len()
    &&& line[mark] == '.' || line[mark] == ')'
    &&& strings::whitespace(line[mark + 1])
    &&& forall|i: int| 0 <= i < mark ==> '0' <= #[trigger] line[i] <= '9'
}

/// Whether a line of a list of lines is there and holds more than whitespace.
pub open spec fn visible_line(lines: Seq<Seq<char>>, index: int) -> bool {
    0 <= index < lines.len() && !strings::blank(lines[index])
}

/// The start of the list item that holds a line: the nearest line at or above it that
/// starts an item, with no blank line between.
pub open spec fn item_start(lines: Seq<Seq<char>>, index: int) -> Option<int>
    decreases index + 1,
{
    if !visible_line(lines, index) {
        None
    } else if starts_list_item(lines[index]) {
        Some(index)
    } else {
        item_start(lines, index - 1)
    }
}

/// The last line of the list item that continues at a line.
pub open spec fn item_end(lines: Seq<Seq<char>>, index: int) -> int
    decreases lines.len() - index,
{
    if visible_line(lines, index + 1) && !starts_list_item(lines[index + 1]) {
        item_end(lines, index + 1)
    } else {
        index
    }
}

/// The first line of the block of lines without a blank one that holds a line.
pub open spec fn block_start(lines: Seq<Seq<char>>, index: int) -> int
    decreases index,
{
    if index > 0 && visible_line(lines, index - 1) {
        block_start(lines, index - 1)
    } else {
        index
    }
}

/// The last line of the block of lines without a blank one that holds a line.
pub open spec fn block_end(lines: Seq<Seq<char>>, index: int) -> int
    decreases lines.len() - index,
{
    if visible_line(lines, index + 1) {
        block_end(lines, index + 1)
    } else {
        index
    }
}

/// An index moved back to the last line, where it lies behind it.
pub open spec fn clamped(lines: Seq<Seq<char>>, index: int) -> int {
    if index < lines.len() {
        index
    } else {
        lines.len() - 1
    }
}

/// The first line of the list item or block that holds a line.
pub open spec fn structure_start(lines: Seq<Seq<char>>, index: int) -> int {
    match item_start(lines, clamped(lines, index)) {
        Some(start) => start,
        None => if visible_line(lines, index) {
            block_start(lines, index)
        } else {
            index
        },
    }
}

/// The last line of the list item or block that holds a line.
pub open spec fn structure_end(lines: Seq<Seq<char>>, index: int) -> int {
    match item_start(lines, clamped(lines, index)) {
        Some(start) => item_end(lines, start),
        None => if visible_line(lines, index) {
            block_end(lines, index)
        } else {
            index
        },
    }
}

/// Whether a line starts a list item.
pub fn is_list_item_start(line: &str) -> (yes: bool)
    ensures
        yes == starts_list_item(line@),
{
    let rest = trim_start(line);
    let chars = to_chars(rest.as_str());
    if chars.len() >= 2 && (chars[0] == '-' || chars[0] == '*' || chars[0] == '+') && chars[1]
        == ' ' {
        return true;
    }
    let mut index: usize = 0;
    while index < chars.len()
        invariant
            index <= chars@.len(),
            chars@ == rest@,
            rest@ == strings::trimmed_start(line@),
            !(chars@.len() >= 2 && (chars@[0] == '-' || chars@[0] == '*' || chars@[0] == '+')
                && chars@[1] == ' '),
            forall|i: int| 0 <= i < index ==> '0' <= #[trigger] chars@[i] <= '9',
        decreases chars@.len() - index,
    {
        let ch: char = chars[index];
        if ch == '.' || ch == ')' {
            let yes = chars.len() - index >= 2 && is_whitespace(chars[index + 1]);
            proof {
                if yes {
                    assert(numbered_at(rest@, index as int));
                } else {
                    assert forall|mark: int| !#[trigger] numbered_at(rest@, mark) by {
                        if mark > index {
                            assert(!('0' <= rest@[index as int] <= '9'));
                        }
                    }
                }
            }
            return yes;
        }
        if ch < '0' || '9' < ch {
            assert forall|mark: int| !#[trigger] numbered_at(rest@, mark) by {
                if mark > index {
                    assert(!('0' <= rest@[index as int] <= '9'));
                }
            }
            return false;
        }
        index = index + 1;
    }
    assert forall|mark: int| !#[trigger] numbered_at(rest@, mark) by {
        if 0 <= mark < rest@.len() {
            assert('0' <= rest@[mark] <= '9');
        }
    }
    false
}

/// The start of the list item that holds a line. An index behind the last line stands
/// for the last line.
pub fn containing_list_item_start(source_lines: &[String], line_index: usize) -> (start: Option<
    usize,
>)
    ensures
        match start {
            Some(start) => item_start(
                strings::texts(source_lines@),
                clamped(strings::texts(source_lines@), line_index as int),
            ) == Some(start as int),
            None => item_start(
                strings::texts(source_lines@),
                clamped(strings::texts(source_lines@), line_index as int),
            ) is None,
        },
{
    let ghost lines = strings::texts(source_lines@);
    let count: usize = source_lines.len();
    let mut next: usize = if line_index < count {
        line_index + 1
    } else {
        count
    };
    let ghost first = next - 1;
    assert(first == clamped(lines, line_index as int));
    while next > 0
        invariant
            next <= source_lines@.len(),
            lines == strings::texts(source_lines@),
            first == clamped(lines, line_index as int),
            item_start(lines, first) == item_start(lines, next - 1),
        decreases next,
    {
        let index: usize = next - 1;
        let line = source_lines[index].as_str();
        assert(lines[index as int] == line@);
        if is_blank(line) {
            return None;
        }
        if is_list_item_start(line) {
            return Some(index);
        }
        next = index;
    }
    None
}

/// The last line of the list item or block that holds a line.
pub fn structure_end_line(source_lines: &[String], line_index: usize) -> (end: usize)
    ensures
        end == structure_end(strings::texts(source_lines@), line_index as int),
{
    let ghost lines = strings::texts(source_lines@);
    let count: usize = source_lines.len();
    if let Some(list_item_start) = containing_list_item_start(source_lines, line_index) {
        let mut end: usize = list_item_start;
        proof {
            lemma_item_start(lines, clamped(lines, line_index as int));
        }
        while end + 1 < count
            invariant
                end < count == source_lines@.len(),
                lines == strings::texts(source_lines@),
                item_end(lines, list_item_start as int) == item_end(lines, end as int),
            ensures
                end == item_end(lines, list_item_start as int),
            decreases count - end,
        {
            let line = source_lines[end + 1].as_str();
            assert(lines[end as int + 1] == line@);
            if is_blank(line) || is_list_item_start(line) {
                break;
            }
            end = end + 1;
        }
        return end;
    }
    if line_index >= count || is_blank(source_lines[line_index].as_str()) {
        return line_index;
    }
    let mut end: usize = line_index;
    while end + 1 < count
        invariant
            end < count == source_lines@.len(),
            lines == strings::texts(source_lines@),
            block_end(lines, line_index as int) == block_end(lines, end as int),
        ensures
            end == block_end(lines, line_index as int),
        decreases count - end,
    {
        let line = source_lines[end + 1].as_str();
        assert(lines[end as int + 1] == line@);
        if is_blank(line) {
            break;
        }
        end = end + 1;
    }
    end
}

/// The first line of the list item or block that holds a line.
pub fn structure_start_line(source_lines: &[String], line_index: usize) -> (start: usize)
    ensures
        start == structure_start(strings::texts(source_lines@), line_index as int),
{
    let ghost lines = strings::texts(source_lines@);
    if let Some(list_item_start) = containing_list_item_start(source_lines, line_index) {
        return list_item_start;
    }
    if line_index >= source_lines.len() || is_blank(source_lines[line_index].as_str()) {
        return line_index;
    }
    let mut start: usize = line_index;
    while start > 0
        invariant
            start <= line_index < source_lines@.len(),
            lines == strings::texts(source_lines@),
            block_start(lines, line_index as int) == block_start(lines, start as int),
        ensures
            start == block_start(lines, line_index as int),
        decreases start,
    {
        let line = source_lines[start - 1].as_str();
        assert(lines[start - 1] == line@);
        if is_blank(line) {
            break;
        }
        start = start - 1;
    }
    start
}

proof fn lemma_item_start(lines: Seq<Seq<char>>, index: int)
    ensures
        match item_start(lines, index) {
            Some(start) => {
                &&& 0 <= start <= index < lines.len()
                &&& starts_list_item(lines[start])
                &&& forall|i: int| start <= i <= index ==> #[trigger] visible_line(lines, i)
                &&& forall|i: int| start < i <= index ==> !starts_list_item(#[trigger] lines[i])
            },
            None => true,
        },
    decreases index + 1,
{
    if visible_line(lines, index) && !starts_list_item(lines[index]) {
        lemma_item_start(lines, index - 1);
    }
}

proof fn lemma_item_end(lines: Seq<Seq<char>>, start: int, index: int)
    requires
        0 <= start <= index < lines.len(),
        forall|i: int| start <= i <= index ==> #[trigger] visible_line(lines, i),
        forall|i: int| start < i <= index ==> !starts_list_item(#[trigger] lines[i]),
    ensures
        index <= item_end(lines, start) < lines.len(),
        forall|i: int|
            start <= i <= item_end(lines, start) ==> #[trigger] visible_line(lines, i),
        forall|i: int|
            start < i <= item_end(lines, start) ==> !starts_list_item(#[trigger] lines[i]),
        visible_line(lines, item_end(lines, start) + 1) ==> starts_list_item(
            lines[item_end(lines, start) + 1],
        ),
    decreases lines.len() - start,
{
    if start < index {
        assert(visible_line(lines, start + 1));
        lemma_item_end(lines, start + 1, index);
    } else if visible_line(lines, start + 1) && !starts_list_item(lines[start + 1]) {
        lemma_item_end(lines, start + 1, start + 1);
    }
}

proof fn lemma_block_start(lines: Seq<Seq<char>>, index: int)
    requires
        visible_line(lines, index),
        item_start(lines, index) is None,
    ensures
        0 <= block_start(lines, index) <= index,
        forall|i: int|
            block_start(lines, index) <= i <= index ==> #[trigger] visible_line(lines, i),
        item_start(lines, block_start(lines, index)) is None,
        !visible_line(lines, block_start(lines, index) - 1),
    decreases index,
{
    if index > 0 && visible_line(lines, index - 1) {
        lemma_block_start(lines, index - 1);
    }
}

proof fn lemma_block_end(lines: Seq<Seq<char>>, start: int, index: int)
    requires
        0 <= start <= index < lines.len(),
        forall|i: int| start <= i <= index ==> #[trigger] visible_line(lines, i),
    ensures
        index <= block_end(lines, start) < lines.len(),
        forall|i: int|
            start <= i <= block_end(lines, start) ==> #[trigger] visible_line(lines, i),
        !visible_line(lines, block_end(lines, start) + 1),
    decreases lines.len() - start,
{
    if start < index {
        assert(visible_line(lines, start + 1));
        lemma_block_end(lines, start + 1, index);
    } else if visible_line(lines, start + 1) {
        lemma_block_end(lines, start + 1, start + 1);
    }
}

/// The structure that starts around a line holds the line, and none of its lines is
/// blank. It is a whole list item, up to the next item or the next blank line, where an
/// item starts above the line; otherwise it is a whole block between blank lines.
pub proof fn law_structure_holds_the_line(lines: Seq<Seq<char>>, index: int)
    requires
        visible_line(lines, index),
    ensures
        ({
            let start = structure_start(lines, index);
            let end = structure_end(lines, start);
            &&& 0 <= start <= index <= end < lines.len()
            &&& forall|i: int| start <= i <= end ==> #[trigger] visible_line(lines, i)
            &&& match item_start(lines, index) {
                Some(_) => {
                    &&& starts_list_item(lines[start])
                    &&& forall|i: int| start < i <= end ==> !starts_list_item(#[trigger] lines[i])
                    &&& visible_line(lines, end + 1) ==> starts_list_item(lines[end + 1])
                },
                None => !visible_line(lines, start - 1) && !visible_line(lines, end + 1),
            }
        }),
{
    lemma_item_start(lines, index);
    let start = structure_start(lines, index);
    match item_start(lines, index) {
        Some(item) => {
            assert(visible_line(lines, item));
            assert(item_start(lines, item) == Some(item));
            lemma_item_end(lines, item, index);
        },
        None => {
            lemma_block_start(lines, index);
            lemma_block_end(lines, start, index);
            assert(visible_line(lines, start));
        },
    }
}

// ---------------------------------------------------------------------------
// Boundaries and summaries
// ---------------------------------------------------------------------------
/// The greatest boundary at or before a byte offset.
pub fn previous_char_boundary(text: &str, byte_offset: usize) -> (boundary: usize)
    ensures
        boundary == text::floor_boundary(text@, byte_offset as int),
{
    let chars = to_chars(text);
    locate_char(&chars, byte_count(text), byte_offset).1
}

/// The end of the character that covers a byte offset.
pub fn next_char_boundary(text: &str, byte_offset: usize) -> (boundary: usize)
    ensures
        boundary == text::char_end(text@, byte_offset as int),
{
    let chars = to_chars(text);
    let total: usize = byte_count(text);
    let found = locate_char(&chars, total, byte_offset);
    proof {
        text::lemma_char_index(text@, byte_offset as int);
    }
    if found.0 < chars.len() {
        proof {
            text::lemma_byte_pos_step(text@, found.0 as int);
            text::lemma_byte_pos_grows(text@, found.0 as int + 1, text@.len() as int);
        }
        found.1 + text::width_of(chars[found.0])
    } else {
        total
    }
}

/// The first words of a text, up to a number.
pub open spec fn first_words(text: Seq<char>, count: int) -> Seq<Seq<char>> {
    let all = strings::words(text);
    if all.len() <= count {
        all
    } else {
        all.take(count)
    }
}

/// The last words of a text, up to a number.
pub open spec fn last_words(text: Seq<char>, count: int) -> Seq<Seq<char>> {
    let all = strings::words(text);
    if all.len() <= count {
        all
    } else {
        all.skip(all.len() - count)
    }
}

/// Words as a summary, where there are any.
pub open spec fn summary(words: Seq<Seq<char>>) -> Option<Seq<char>> {
    if words.len() == 0 {
        None
    } else {
        Some(strings::joined(words, seq![' ']))
    }
}

/// The summary of the head of an anchor: the first words of its first line.
pub open spec fn head_summary(lines: Seq<Seq<char>>, index: int) -> Option<Seq<char>> {
    if 0 <= index < lines.len() {
        summary(first_words(lines[index], HEAD_SUMMARY_WORDS as int))
    } else {
        None
    }
}

/// The summary of the tail of an anchor: the last words of a line up to the character
/// that covers a byte offset.
pub open spec fn tail_summary(lines: Seq<Seq<char>>, index: int, offset: int) -> Option<Seq<char>> {
    if 0 <= index < lines.len() {
        let line = lines[index];
        let end = text::char_index(line, text::char_end(line, offset));
        summary(last_words(line.take(end), TAIL_SUMMARY_WORDS as int))
    } else {
        None
    }
}

/// The summary of the tail of an anchor that takes in a whole line.
pub open spec fn line_tail_summary(lines: Seq<Seq<char>>, index: int) -> Option<Seq<char>> {
    if 0 <= index < lines.len() {
        summary(last_words(lines[index], TAIL_SUMMARY_WORDS as int))
    } else {
        None
    }
}

proof fn lemma_no_empty_words(text: Seq<char>)
    ensures
        forall|i: int|
            0 <= i < strings::words(text).len() ==> (#[trigger] strings::words(text)[i]).len() > 0,
{
    assert forall|i: int| 0 <= i < strings::words(text).len() implies (
    #[trigger] strings::words(text)[i]).len() > 0 by {
        strings::pieces(text, strings::gap()).lemma_filter_pred(strings::visible(), i);
    }
}

/// The words from `start` up to `end` as a summary.
fn summary_of(words: &[String], start: usize, end: usize) -> (text: Option<String>)
    requires
        start <= end <= words@.len(),
        forall|i: int| 0 <= i < words@.len() ==> (#[trigger] words@[i]@).len() > 0,
    ensures
        strings::opt_text(text) == summary(
            strings::texts(words@).subrange(start as int, end as int),
        ),
{
    let part = vstd::slice::slice_subrange(words, start, end);
    assert(strings::texts(part@) =~= strings::texts(words@).subrange(start as int, end as int));
    proof {
        reveal_strlit(" ");
        assert(" "@ =~= seq![' ']);
    }
    if start == end {
        None
    } else {
        Some(join(part, " "))
    }
}

/// The summary of the head of an anchor.
pub fn branch_anchor_head_summary(source_lines: &[String], source_line_index: usize) -> (found: Option<
    String,
>)
    ensures
        strings::opt_text(found) == head_summary(
            strings::texts(source_lines@),
            source_line_index as int,
        ),
{
    if source_line_index >= source_lines.len() {
        return None;
    }
    let line = source_lines[source_line_index].as_str();
    let words = split_words(line);
    let count: usize = if words.len() < HEAD_SUMMARY_WORDS {
        words.len()
    } else {
        HEAD_SUMMARY_WORDS
    };
    proof {
        lemma_no_empty_words(line@);
        let all = strings::texts(words@);
        assert forall|i: int| 0 <= i < words@.len() implies (#[trigger] words@[i]@).len() > 0 by {
            assert(all[i] == words@[i]@);
        }
        assert(all.subrange(0, count as int) =~= first_words(line@, HEAD_SUMMARY_WORDS as int));
    }
    summary_of(&words, 0, count)
}

/// The summary of the tail of an anchor up to a byte offset.
pub fn branch_anchor_tail_summary(
    source_lines: &[String],
    source_line_index: usize,
    source_byte_offset: usize,
) -> (found: Option<String>)
    ensures
        strings::opt_text(found) == tail_summary(
            strings::texts(source_lines@),
            source_line_index as int,
            source_byte_offset as int,
        ),
{
    if source_line_index >= source_lines.len() {
        return None;
    }
    let line = source_lines[source_line_index].as_str();
    let end = next_char_boundary(line, source_byte_offset);
    let chars = to_chars(line);
    let index = locate_char(&chars, byte_count(line), end).0;
    proof {
        text::lemma_char_index(line@, end as int);
    }
    let head = to_text(&chars, 0, index);
    assert(head@ =~= line@.take(index as int));
    let words = split_words(head.as_str());
    let start: usize = if words.len() < TAIL_SUMMARY_WORDS {
        0
    } else {
        words.len() - TAIL_SUMMARY_WORDS
    };
    proof {
        lemma_no_empty_words(head@);
        let all = strings::texts(words@);
        assert forall|i: int| 0 <= i < words@.len() implies (#[trigger] words@[i]@).len() > 0 by {
            assert(all[i] == words@[i]@);
        }
        assert(all.subrange(start as int, words@.len() as int) =~= last_words(
            head@,
            TAIL_SUMMARY_WORDS as int,
        ));
    }
    summary_of(&words, start, words.len())
}

/// The summary of the tail of an anchor that takes in a whole line.
pub fn branch_anchor_tail_summary_for_line(
    source_lines: &[String],
    source_line_index: usize,
) -> (found: Option<String>)
    ensures
        strings::opt_text(found) == line_tail_summary(
            strings::texts(source_lines@),
            source_line_index as int,
        ),
{
    if source_line_index >= source_lines.len() {
        return None;
    }
    let line = source_lines[source_line_index].as_str();
    let total: usize = byte_count(line);
    if line.is_empty() {
        proof {
            assert(line@ =~= Seq::<char>::empty());
            lemma_no_words(line@);
        }
        return None;
    }
    proof {
        text::lemma_byte_pos_ends(line@);
        text::lemma_byte_pos_grows(line@, line@.len() - 1, line@.len() as int);
        text::lemma_byte_pos_step(line@, line@.len() - 1);
        text::lemma_byte_pos_grows(line@, 0, line@.len() - 1);
        text::lemma_char_index_unique(line@, total - 1, line@.len() - 1);
        text::lemma_char_index_of_pos(line@, line@.len() as int);
        assert(line@.take(line@.len() as int) =~= line@);
    }
    branch_anchor_tail_summary(source_lines, source_line_index, total - 1)
}

proof fn lemma_no_words(text: Seq<char>)
    requires
        text.len() == 0,
    ensures
        strings::words(text).len() == 0,
{
    reveal(Seq::filter);
    let parts = strings::pieces(text, strings::gap());
    assert(parts.drop_last() =~= Seq::<Seq<char>>::empty());
    assert(parts.drop_last().filter(strings::visible()) =~= Seq::<Seq<char>>::empty());
    assert(parts.last().len() == 0);
}

// ---------------------------------------------------------------------------
// What list items and summaries are
// ---------------------------------------------------------------------------
/// A line starts a list item where, behind its indentation, a dash, a star or a plus sign
/// stands before a space, or a number ends in a dot or a closing parenthesis before
/// whitespace. No other line does.
pub proof fn law_list_items_start_with_a_mark(
    indent: Seq<char>,
    digits: Seq<char>,
    mark: char,
    rest: Seq<char>,
)
    requires
        strings::blank(indent),
        forall|i: int| 0 <= i < digits.len() ==> '0' <= #[trigger] digits[i] <= '9',
        !strings::whitespace(mark),
        !('0' <= mark <= '9'),
    ensures
        !starts_list_item(indent),
        !starts_list_item(indent + digits),
        starts_list_item(indent + digits.push(mark) + rest) <==> rest.len() > 0 && {
            ||| (mark == '.' || mark == ')') && strings::whitespace(rest[0])
            ||| digits.len() == 0 && (mark == '-' || mark == '*' || mark == '+') && rest[0] == ' '
        },
{
    strings::law_blank_is_trimmed_to_nothing(indent);
    assert(strings::trimmed_start(indent).len() == 0);
    let line = digits.push(mark) + rest;
    assert(indent + digits.push(mark) + rest =~= indent + line);
    lemma_indented(indent, line);
    lemma_indented(indent, digits);
    if digits.len() > 0 {
        assert(!strings::whitespace(digits[0]));
    }
    assert forall|at: int| #[trigger] numbered_at(line, at) implies at == digits.len() by {
        if at < digits.len() {
            assert(line[at] == digits[at]);
        } else if at > digits.len() {
            assert(line[digits.len() as int] == mark);
        }
    }
    assert forall|at: int| !#[trigger] numbered_at(digits, at) by {
        if 0 <= at < digits.len() {
            assert('0' <= digits[at] <= '9');
        }
    }
    if rest.len() > 0 {
        assert(line[digits.len() as int + 1] == rest[0]);
        if (mark == '.' || mark == ')') && strings::whitespace(rest[0]) {
            assert forall|i: int| 0 <= i < digits.len() implies '0' <= #[trigger] line[i] <= '9' by {
                assert(line[i] == digits[i]);
            }
            assert(numbered_at(line, digits.len() as int));
        }
    }
    if digits.len() > 0 {
        assert(line[0] == digits[0]);
        assert('0' <= digits[0] <= '9');
    }
}

proof fn lemma_indented(indent: Seq<char>, line: Seq<char>)
    requires
        strings::blank(indent),
        line.len() == 0 || !strings::whitespace(line[0]),
    ensures
        strings::trimmed_start(indent + line) == line,
    decreases indent.len(),
{
    if indent.len() > 0 {
        assert((indent + line)[0] == indent[0]);
        assert((indent + line).skip(1) =~= indent.skip(1) + line);
        lemma_indented(indent.skip(1), line);
    } else {
        assert(indent + line =~= line);
    }
}

/// The list item of a line is the nearest one that starts at or above it with no blank line
/// in between.
pub proof fn law_list_item_of_a_line_is_the_nearest(lines: Seq<Seq<char>>, index: int, other: int)
    requires
        0 <= other <= index < lines.len(),
    ensures
        match item_start(lines, index) {
            Some(start) => {
                &&& 0 <= start <= index
                &&& starts_list_item(lines[start])
                &&& start < other ==> !starts_list_item(lines[other])
                &&& start <= other ==> !strings::blank(lines[other])
            },
            None => starts_list_item(lines[other]) ==> exists|i: int|
                other <= i <= index && strings::blank(#[trigger] lines[i]),
        },
    decreases index,
{
    if !strings::blank(lines[index]) && !starts_list_item(lines[index]) {
        if other < index {
            law_list_item_of_a_line_is_the_nearest(lines, index - 1, other);
        } else if index > 0 {
            law_list_item_of_a_line_is_the_nearest(lines, index - 1, index - 1);
        }
    }
}

/// The head summary of a line is its first eight words, its tail summary its last six, each
/// joined by single spaces; a line of fewer words is summed up by all of them, and a line
/// without a word not at all.
pub proof fn law_summaries_are_the_outer_words(lines: Seq<Seq<char>>, index: int)
    requires
        0 <= index < lines.len(),
    ensures
        ({
            let all = strings::words(lines[index]);
            let count = all.len() as int;
            let head = head_summary(lines, index);
            let tail = line_tail_summary(lines, index);
            &&& count == 0 ==> head is None && tail is None
            &&& 0 < count <= 8 ==> head == Some(strings::joined(all, seq![' ']))
            &&& 8 < count ==> head == Some(strings::joined(all.subrange(0, 8), seq![' ']))
            &&& 0 < count <= 6 ==> tail == Some(strings::joined(all, seq![' ']))
            &&& 6 < count ==> tail == Some(
                strings::joined(all.subrange(count - 6, count), seq![' ']),
            )
        }),
{
    let all = strings::words(lines[index]);
    let count = all.len() as int;
    if count > 8 {
        assert(all.take(8) =~= all.subrange(0, 8));
    }
    if count > 6 {
        assert(all.skip(count - 6) =~= all.subrange(count - 6, count));
    }
}

/// The tail summary at an anchor is that of the line up to and with the character under the
/// anchor.
pub proof fn law_tail_summary_ends_at_the_anchor(line: Seq<char>, at: int, offset: int)
    requires
        0 <= at < line.len(),
        text::byte_pos(line, at) <= offset < text::byte_pos(line, at + 1),
    ensures
        tail_summary(seq![line], 0, offset) == line_tail_summary(seq![line.take(at + 1)], 0),
{
    text::lemma_char_index_unique(line, offset, at);
    text::lemma_char_index_of_pos(line, at + 1);
    assert(text::char_end(line, offset) == text::byte_pos(line, at + 1));
}

/// A line behind the last one belongs to the list item in which the last one stands, and to
/// nothing where there is none.
pub proof fn law_lines_behind_the_end_belong_to_the_last_item(lines: Seq<Seq<char>>, index: int)
    requires
        0 < lines.len() <= index,
    ensures
        match item_start(lines, lines.len() - 1) {
            Some(start) => {
                &&& structure_start(lines, index) == start
                &&& structure_end(lines, index) == item_end(lines, start)
            },
            None => structure_start(lines, index) == index && structure_end(lines, index) == index,
        },
{
}

} // verus!
