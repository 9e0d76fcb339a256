//! Whitespace-insensitive text: the words of some lines with single spaces between
//! them, and the position in the lines from which each character comes.
use crate::strings;
use crate::strings::is_whitespace;
use crate::text;
use crate::text::{to_chars, width_of};
use vstd::prelude::*;
use vstd::string::*;

verus! {

/// A character and where it stands: the index of its line, and its byte offset there.
pub struct Mark {
    pub ch: char,
    pub line: int,
    pub offset: int,
}

/// A character of a line with its position.
pub open spec fn line_mark(line: Seq<char>, index: int, i: int) -> Mark {
    Mark { ch: line[i], line: index, offset: text::byte_pos(line, i) }
}

/// The characters of a line with their positions.
pub open spec fn line_marks(line: Seq<char>, index: int) -> Seq<Mark> {
    Seq::new(line.len(), |i: int| line_mark(line, index, i))
}

/// The end of a line, which separates words like whitespace.
pub open spec fn line_end(line: Seq<char>, index: int) -> Mark {
    Mark { ch: '\n', line: index, offset: text::byte_len(line) as int }
}

/// The characters of all lines with their positions, each line with its end.
pub open spec fn all_marks(lines: Seq<Seq<char>>) -> Seq<Mark>
    decreases lines.len(),
{
    if lines.len() == 0 {
        Seq::<Mark>::empty()
    } else {
        let index = lines.len() - 1;
        all_marks(lines.drop_last()) + line_marks(lines.last(), index).push(
            line_end(lines.last(), index),
        )
    }
}

/// The index at which the run of whitespace at the end starts.
pub open spec fn gap_start(marks: Seq<Mark>) -> int
    decreases marks.len(),
{
    if marks.len() > 0 && strings::whitespace(marks.last().ch) {
        gap_start(marks.drop_last())
    } else {
        marks.len() as int
    }
}

/// The marks with each run of whitespace between words made one space, which stands
/// where the run starts, and without the whitespace around the words.
pub open spec fn collapsed(marks: Seq<Mark>) -> Seq<Mark>
    decreases marks.len(),
{
    if marks.len() == 0 {
        marks
    } else {
        let head = collapsed(marks.drop_last());
        let gap = gap_start(marks.drop_last());
        if strings::whitespace(marks.last().ch) {
            head
        } else if head.len() > 0 && gap < marks.len() - 1 {
            head.push(Mark { ch: ' ', line: marks[gap].line, offset: marks[gap].offset }).push(
                marks.last(),
            )
        } else {
            head.push(marks.last())
        }
    }
}

/// The normalized characters of some lines with their positions.
pub open spec fn normal_marks(lines: Seq<Seq<char>>) -> Seq<Mark> {
    collapsed(all_marks(lines))
}

/// The characters of marks.
pub open spec fn mark_chars(marks: Seq<Mark>) -> Seq<char> {
    Seq::new(marks.len(), |i: int| marks[i].ch)
}

/// The normalized text of some lines.
pub open spec fn normal_text(lines: Seq<Seq<char>>) -> Seq<char> {
    mark_chars(normal_marks(lines))
}

/// A normalized text with the line index and byte offset of each of its characters.
#[derive(Clone, Debug, PartialEq, Eq)]
pub struct NormalizedText {
    pub text: String,
    pub mapping: Vec<(usize, usize)>,
}

/// Whether a list of positions is that of some marks.
pub open spec fn maps_to(mapping: Seq<(usize, usize)>, marks: Seq<Mark>) -> bool {
    &&& mapping.len() == marks.len()
    &&& forall|i: int|
        0 <= i < marks.len() ==> {
            &&& #[trigger] mapping[i].0 == marks[i].line
            &&& mapping[i].1 == marks[i].offset
        }
}

/// The state of a scan over marks: the normalized text so far, and where the run of
/// whitespace at the end starts.
spec fn scanned(
    text: Seq<char>,
    mapping: Seq<(usize, usize)>,
    pending: Option<(usize, usize)>,
    marks: Seq<Mark>,
) -> bool {
    &&& text == mark_chars(collapsed(marks))
    &&& maps_to(mapping, collapsed(marks))
    &&& match pending {
        Some(start) => {
            &&& gap_start(marks) < marks.len()
            &&& start.0 == marks[gap_start(marks)].line
            &&& start.1 == marks[gap_start(marks)].offset
        },
        None => gap_start(marks) == marks.len(),
    }
}

proof fn lemma_gap_start(marks: Seq<Mark>)
    ensures
        0 <= gap_start(marks) <= marks.len(),
    decreases marks.len(),
{
    if marks.len() > 0 && strings::whitespace(marks.last().ch) {
        lemma_gap_start(marks.drop_last());
    }
}

/// One more mark of whitespace.
proof fn lemma_scan_gap(
    text: Seq<char>,
    mapping: Seq<(usize, usize)>,
    pending: Option<(usize, usize)>,
    marks: Seq<Mark>,
    mark: Mark,
    line: usize,
    offset: usize,
)
    requires
        scanned(text, mapping, pending, marks),
        strings::whitespace(mark.ch),
        mark.line == line,
        mark.offset == offset,
    ensures
        scanned(
            text,
            mapping,
            if pending is Some {
                pending
            } else {
                Some((line, offset))
            },
            marks.push(mark),
        ),
{
    let next = marks.push(mark);
    lemma_gap_start(marks);
    assert(next.drop_last() =~= marks);
    assert(next.last() == mark);
    assert(gap_start(next) == gap_start(marks));
    assert(collapsed(next) == collapsed(marks));
}

/// One more mark of a visible character.
proof fn lemma_scan_visible(
    text: Seq<char>,
    mapping: Seq<(usize, usize)>,
    pending: Option<(usize, usize)>,
    marks: Seq<Mark>,
    mark: Mark,
    line: usize,
    offset: usize,
)
    requires
        scanned(text, mapping, pending, marks),
        !strings::whitespace(mark.ch),
        mark.line == line,
        mark.offset == offset,
    ensures
        text.len() > 0 && pending is Some ==> scanned(
            text.push(' ').push(mark.ch),
            mapping.push(pending->0).push((line, offset)),
            None,
            marks.push(mark),
        ),
        !(text.len() > 0 && pending is Some) ==> scanned(
            text.push(mark.ch),
            mapping.push((line, offset)),
            None,
            marks.push(mark),
        ),
{
    let next = marks.push(mark);
    lemma_gap_start(marks);
    assert(next.drop_last() =~= marks);
    assert(next.last() == mark);
    assert(gap_start(next) == next.len());
    let head = collapsed(marks);
    let gap = gap_start(marks);
    assert(text.len() == head.len());
    if text.len() > 0 && pending is Some {
        assert(next[gap] == marks[gap]);
        let space = Mark { ch: ' ', line: marks[gap].line, offset: marks[gap].offset };
        assert(collapsed(next) == head.push(space).push(mark));
        assert(text.push(' ').push(mark.ch) =~= mark_chars(collapsed(next)));
    } else {
        assert(collapsed(next) == head.push(mark));
        assert(text.push(mark.ch) =~= mark_chars(collapsed(next)));
    }
}

impl NormalizedText {
    /// The normalized text of some lines.
    pub fn new(lines: &[String]) -> (normalized: NormalizedText)
        ensures
            normalized.text@ == normal_text(strings::texts(lines@)),
            maps_to(normalized.mapping@, normal_marks(strings::texts(lines@))),
    {
        let mut text = String::new();
        let mut mapping: Vec<(usize, usize)> = Vec::new();
        let mut pending_space: Option<(usize, usize)> = None;
        let ghost all = strings::texts(lines@);
        let ghost mut marks = Seq::<Mark>::empty();
        let mut line_index: usize = 0;
        assert(all.take(0) =~= Seq::<Seq<char>>::empty());
        assert(text@ =~= mark_chars(collapsed(marks)));
        while line_index < lines.len()
            invariant
                line_index <= lines@.len(),
                all == strings::texts(lines@),
                marks == all_marks(all.take(line_index as int)),
                scanned(text@, mapping@, pending_space, marks),
            decreases lines@.len() - line_index,
        {
            let line = to_chars(lines[line_index].as_str());
            let total: usize = text::byte_count(lines[line_index].as_str());
            let ghost before = marks;
            let ghost own = line_marks(line@, line_index as int);
            let mut index: usize = 0;
            let mut byte_offset: usize = 0;
            proof {
                text::lemma_byte_pos_ends(line@);
                assert(own.take(0) =~= Seq::<Mark>::empty());
                assert(before + own.take(0) =~= before);
            }
            while index < line.len()
                invariant
                    index <= line@.len(),
                    total == text::byte_len(line@),
                    byte_offset == text::byte_pos(line@, index as int),
                    own == line_marks(line@, line_index as int),
                    marks == before + own.take(index as int),
                    scanned(text@, mapping@, pending_space, marks),
                decreases line@.len() - index,
            {
                let ch: char = line[index];
                let ghost mark = own[index as int];
                let ghost old_text = text@;
                let ghost old_mapping = mapping@;
                let ghost old_pending = pending_space;
                let ghost old_marks = marks;
                if is_whitespace(ch) {
                    if pending_space.is_none() {
                        pending_space = Some((line_index, byte_offset));
                    }
                    proof {
                        lemma_scan_gap(
                            old_text,
                            old_mapping,
                            old_pending,
                            old_marks,
                            mark,
                            line_index,
                            byte_offset,
                        );
                    }
                } else {
                    if !text.as_str().is_empty() {
                        if let Some(space) = pending_space {
                            text.push(' ');
                            mapping.push(space);
                        }
                    }
                    text.push(ch);
                    mapping.push((line_index, byte_offset));
                    pending_space = None;
                    proof {
                        lemma_scan_visible(
                            old_text,
                            old_mapping,
                            old_pending,
                            old_marks,
                            mark,
                            line_index,
                            byte_offset,
                        );
                    }
                }
                proof {
                    text::lemma_byte_pos_step(line@, index as int);
                    text::lemma_byte_pos_grows(line@, index as int + 1, line@.len() as int);
                    marks = old_marks.push(mark);
                    assert(marks =~= before + own.take(index as int + 1));
                }
                byte_offset = byte_offset + width_of(ch);
                index = index + 1;
            }
            let ghost old_pending = pending_space;
            let ghost old_marks = marks;
            let ghost end = line_end(line@, line_index as int);
            if pending_space.is_none() {
                pending_space = Some((line_index, total));
            }
            proof {
                lemma_scan_gap(text@, mapping@, old_pending, old_marks, end, line_index, total);
                marks = old_marks.push(end);
                let taken = all.take(line_index as int + 1);
                assert(taken.drop_last() =~= all.take(line_index as int));
                assert(taken.last() == line@);
                assert(own.take(line@.len() as int) =~= own);
                assert(marks =~= all_marks(taken));
            }
            line_index = line_index + 1;
        }
        assert(all.take(lines@.len() as int) =~= all);
        NormalizedText { text, mapping }
    }
}

// ---------------------------------------------------------------------------
// What normalizing keeps
// ---------------------------------------------------------------------------
proof fn lemma_joined_visible(parts: Seq<Seq<char>>)
    requires
        forall|i: int| 0 <= i < parts.len() ==> (#[trigger] parts[i]).len() > 0,
    ensures
        parts.len() > 0 <==> strings::joined(parts, seq![' ']).len() > 0,
    decreases parts.len(),
{
}

proof fn lemma_collapsed_is_words(marks: Seq<Mark>)
    ensures
        mark_chars(collapsed(marks)) == strings::joined(
            strings::pieces(mark_chars(marks), strings::gap()).filter(strings::visible()),
            seq![' '],
        ),
        strings::pieces(mark_chars(marks), strings::gap()).last().len() == 0 <==> (marks.len() == 0
            || gap_start(marks) < marks.len()),
    decreases marks.len(),
{
    reveal(Seq::filter);
    let chars = mark_chars(marks);
    let parts = strings::pieces(chars, strings::gap());
    if marks.len() == 0 {
        assert(chars =~= Seq::<char>::empty());
        assert(parts.drop_last() =~= Seq::<Seq<char>>::empty());
        assert(parts.drop_last().filter(strings::visible()) =~= Seq::<Seq<char>>::empty());
        assert(parts.last().len() == 0);
        assert(mark_chars(collapsed(marks)) =~= Seq::<char>::empty());
    } else {
        let head = marks.drop_last();
        let old_parts = strings::pieces(mark_chars(head), strings::gap());
        lemma_collapsed_is_words(head);
        lemma_gap_start(head);
        strings::lemma_pieces(mark_chars(head), strings::gap());
        assert(chars.drop_last() =~= mark_chars(head));
        assert(chars.last() == marks.last().ch);
        if strings::whitespace(marks.last().ch) {
            assert(parts.drop_last() =~= old_parts);
        } else {
            let last = old_parts.last();
            let old_words = old_parts.filter(strings::visible());
            assert(parts.drop_last() =~= old_parts.drop_last());
            assert(parts.last() == last.push(marks.last().ch));
            let words = parts.filter(strings::visible());
            assert forall|i: int| 0 <= i < old_words.len() implies (#[trigger] old_words[i]).len()
                > 0 by {
                old_parts.lemma_filter_pred(strings::visible(), i);
            }
            lemma_joined_visible(old_words);
            assert(words == old_parts.drop_last().filter(strings::visible()).push(parts.last()));
            let new_chars = mark_chars(collapsed(marks));
            if last.len() == 0 {
                assert(old_words == old_parts.drop_last().filter(strings::visible()));
                assert(words.drop_last() =~= old_words);
                assert(parts.last() =~= seq![marks.last().ch]);
                if old_words.len() > 0 {
                    assert(new_chars =~= mark_chars(collapsed(head)) + seq![' '] + seq![
                        marks.last().ch,
                    ]);
                } else {
                    assert(collapsed(head).len() == mark_chars(collapsed(head)).len());
                    assert(new_chars =~= seq![marks.last().ch]);
                    assert(words =~= seq![parts.last()]);
                }
            } else {
                assert(old_words == old_parts.drop_last().filter(strings::visible()).push(last));
                assert(words.drop_last() =~= old_words.drop_last());
                assert(new_chars =~= mark_chars(collapsed(head)).push(marks.last().ch));
                assert(strings::joined(words, seq![' ']) =~= strings::joined(
                    old_words,
                    seq![' '],
                ).push(marks.last().ch));
            }
        }
    }
}

/// The lines one after the other, each with a newline at its end.
pub open spec fn ended_lines(lines: Seq<Seq<char>>) -> Seq<char>
    decreases lines.len(),
{
    if lines.len() == 0 {
        Seq::<char>::empty()
    } else {
        ended_lines(lines.drop_last()) + lines.last().push('\n')
    }
}

proof fn lemma_all_marks(lines: Seq<Seq<char>>)
    ensures
        mark_chars(all_marks(lines)) == ended_lines(lines),
        forall|i: int|
            0 <= i < all_marks(lines).len() ==> 0 <= (#[trigger] all_marks(lines)[i]).line
                < lines.len(),
        forall|i: int|
            0 <= i < all_marks(lines).len() && !strings::whitespace(
                (#[trigger] all_marks(lines)[i]).ch,
            ) ==> stands_at(lines, all_marks(lines)[i]),
    decreases lines.len(),
{
    if lines.len() > 0 {
        let head = lines.drop_last();
        lemma_all_marks(head);
        let own = line_marks(lines.last(), lines.len() - 1).push(
            line_end(lines.last(), lines.len() - 1),
        );
        let marks = all_marks(lines);
        assert(mark_chars(marks) =~= ended_lines(lines)) by {
            assert(mark_chars(own) =~= lines.last().push('\n'));
        }
        assert forall|i: int| 0 <= i < marks.len() && !strings::whitespace(
            (#[trigger] marks[i]).ch,
        ) implies stands_at(lines, marks[i]) by {
            let before = all_marks(head).len();
            if i < before {
                let mark = all_marks(head)[i];
                assert(marks[i] == mark);
                let index = choose|index: int|
                    0 <= index < head[mark.line].len() && head[mark.line][index] == mark.ch
                        && #[trigger] text::byte_pos(head[mark.line], index) == mark.offset;
                assert(lines[mark.line] == head[mark.line]);
                assert(text::byte_pos(lines[mark.line], index) == mark.offset);
            } else {
                assert(marks[i] == own[i - before]);
                assert(lines[marks[i].line] == lines.last());
                assert(text::byte_pos(lines.last(), i - before) == marks[i].offset);
            }
        }
    }
}

/// Whether a mark's character is the one at its position in the lines.
pub open spec fn stands_at(lines: Seq<Seq<char>>, mark: Mark) -> bool {
    &&& 0 <= mark.line < lines.len()
    &&& exists|index: int|
        0 <= index < lines[mark.line].len() && lines[mark.line][index] == mark.ch
            && #[trigger] text::byte_pos(lines[mark.line], index) == mark.offset
}

proof fn lemma_collapsed_from(marks: Seq<Mark>, i: int)
    requires
        0 <= i < collapsed(marks).len(),
    ensures
        !strings::whitespace(collapsed(marks)[i].ch) ==> marks.contains(collapsed(marks)[i]),
        exists|j: int| 0 <= j < marks.len() && (#[trigger] marks[j]).line == collapsed(marks)[i].line,
    decreases marks.len(),
{
    if marks.len() > 0 {
        let head = marks.drop_last();
        let old = collapsed(head);
        lemma_gap_start(head);
        if i < old.len() {
            lemma_collapsed_from(head, i);
            assert(collapsed(marks)[i] == old[i]);
            let j = choose|j: int| 0 <= j < head.len() && (#[trigger] head[j]).line == old[i].line;
            assert(marks[j] == head[j]);
            if !strings::whitespace(old[i].ch) {
                let k = choose|k: int| 0 <= k < head.len() && head[k] == old[i];
                assert(marks[k] == old[i]);
            }
        } else {
            let gap = gap_start(head);
            if old.len() > 0 && gap < marks.len() - 1 && i == old.len() {
                assert(marks[gap].line == collapsed(marks)[i].line);
            } else {
                assert(marks[marks.len() - 1] == collapsed(marks)[i]);
            }
        }
    }
}

/// Normalizing keeps the words of the lines, in their order, with one space between
/// each two.
pub proof fn law_normal_text_is_the_words(lines: Seq<Seq<char>>)
    ensures
        normal_text(lines) == strings::joined(strings::words(ended_lines(lines)), seq![' ']),
{
    lemma_all_marks(lines);
    lemma_collapsed_is_words(all_marks(lines));
}

/// Every character of a normalized text other than a space is the character at its
/// position, and the position of a space lies in the lines too.
pub proof fn law_positions_hold_the_characters(lines: Seq<Seq<char>>, i: int)
    requires
        0 <= i < normal_marks(lines).len(),
    ensures
        0 <= normal_marks(lines)[i].line < lines.len(),
        !strings::whitespace(normal_marks(lines)[i].ch) ==> stands_at(lines, normal_marks(lines)[i]),
{
    lemma_all_marks(lines);
    lemma_collapsed_from(all_marks(lines), i);
}

/// Whether all lines are blank.
pub open spec fn blank_lines(lines: Seq<Seq<char>>) -> bool {
    forall|i: int| 0 <= i < lines.len() ==> strings::blank(#[trigger] lines[i])
}

proof fn lemma_collapsed_ends(marks: Seq<Mark>)
    ensures
        collapsed(marks).len() > 0 ==> !strings::whitespace(collapsed(marks).last().ch),
        collapsed(marks).len() == 0 <==> forall|i: int|
            0 <= i < marks.len() ==> strings::whitespace((#[trigger] marks[i]).ch),
    decreases marks.len(),
{
    if marks.len() > 0 {
        let head = marks.drop_last();
        lemma_collapsed_ends(head);
        if collapsed(head).len() == 0 && strings::whitespace(marks.last().ch) {
            assert forall|i: int| 0 <= i < marks.len() implies strings::whitespace(
                (#[trigger] marks[i]).ch,
            ) by {
                if i < head.len() {
                    assert(marks[i] == head[i]);
                }
            }
        }
        if collapsed(head).len() > 0 {
            let i = choose|i: int|
                0 <= i < head.len() && !strings::whitespace((#[trigger] head[i]).ch);
            assert(marks[i] == head[i]);
        }
        assert(marks[marks.len() - 1] == marks.last());
    }
}

proof fn lemma_blank_marks(lines: Seq<Seq<char>>)
    ensures
        blank_lines(lines) <==> forall|i: int|
            0 <= i < all_marks(lines).len() ==> strings::whitespace(
                (#[trigger] all_marks(lines)[i]).ch,
            ),
    decreases lines.len(),
{
    if lines.len() > 0 {
        let head = lines.drop_last();
        lemma_blank_marks(head);
        let old_marks = all_marks(head);
        let own = line_marks(lines.last(), lines.len() - 1).push(
            line_end(lines.last(), lines.len() - 1),
        );
        let marks = all_marks(lines);
        if blank_lines(lines) {
            assert forall|i: int| 0 <= i < head.len() implies strings::blank(
                #[trigger] head[i],
            ) by {
                assert(lines[i] == head[i]);
            }
            assert forall|i: int| 0 <= i < marks.len() implies strings::whitespace(
                (#[trigger] marks[i]).ch,
            ) by {
                if i < old_marks.len() {
                    assert(marks[i] == old_marks[i]);
                } else {
                    assert(marks[i] == own[i - old_marks.len()]);
                    assert(strings::blank(lines[lines.len() - 1]));
                    if i - old_marks.len() < lines.last().len() {
                        assert(strings::whitespace(lines.last()[i - old_marks.len()]));
                    }
                }
            }
        }
        if forall|i: int|
            0 <= i < marks.len() ==> strings::whitespace((#[trigger] marks[i]).ch) {
            assert forall|i: int| 0 <= i < old_marks.len() implies strings::whitespace(
                (#[trigger] old_marks[i]).ch,
            ) by {
                assert(marks[i] == old_marks[i]);
            }
            assert forall|i: int| 0 <= i < lines.len() implies strings::blank(
                #[trigger] lines[i],
            ) by {
                if i < head.len() {
                    assert(lines[i] == head[i]);
                } else {
                    assert forall|j: int| 0 <= j < lines[i].len() implies strings::whitespace(
                        #[trigger] lines[i][j],
                    ) by {
                        assert(marks[old_marks.len() + j] == own[j]);
                        assert(own[j] == line_mark(lines.last(), lines.len() - 1, j));
                    }
                }
            }
        }
    }
}

/// Normalizing leaves nothing of blank lines, and something visible of all others.
pub proof fn law_only_blank_lines_leave_nothing(lines: Seq<Seq<char>>)
    ensures
        blank_lines(lines) <==> normal_text(lines).len() == 0,
        blank_lines(lines) <==> strings::blank(normal_text(lines)),
{
    let marks = normal_marks(lines);
    lemma_blank_marks(lines);
    lemma_collapsed_ends(all_marks(lines));
    if marks.len() > 0 {
        assert(normal_text(lines)[marks.len() - 1] == marks.last().ch);
    }
}

proof fn lemma_neighbours(lines: Seq<Seq<char>>, i: int)
    requires
        0 < i < all_marks(lines).len(),
        !strings::whitespace(all_marks(lines)[i - 1].ch),
    ensures
        all_marks(lines)[i].line == all_marks(lines)[i - 1].line,
    decreases lines.len(),
{
    if lines.len() > 0 {
        let old_marks = all_marks(lines.drop_last());
        let own = line_marks(lines.last(), lines.len() - 1).push(
            line_end(lines.last(), lines.len() - 1),
        );
        if i < old_marks.len() {
            lemma_neighbours(lines.drop_last(), i);
        } else if i > old_marks.len() {
            assert(all_marks(lines)[i] == own[i - old_marks.len()]);
            assert(all_marks(lines)[i - 1] == own[i - 1 - old_marks.len()]);
        } else {
            lemma_last_mark(lines.drop_last());
            assert(all_marks(lines)[i - 1] == old_marks.last());
        }
    }
}

proof fn lemma_last_mark(lines: Seq<Seq<char>>)
    ensures
        lines.len() > 0 ==> all_marks(lines).len() > 0 && all_marks(lines).last().ch == '\n',
        lines.len() == 0 ==> all_marks(lines).len() == 0,
{
}

proof fn lemma_gap_follows_visible(marks: Seq<Mark>)
    ensures
        gap_start(marks) > 0 ==> !strings::whitespace(marks[gap_start(marks) - 1].ch),
        gap_start(marks) == 0 ==> collapsed(marks).len() == 0,
    decreases marks.len(),
{
    lemma_gap_start(marks);
    if marks.len() > 0 && strings::whitespace(marks.last().ch) {
        lemma_gap_start(marks.drop_last());
        lemma_gap_follows_visible(marks.drop_last());
    }
}

proof fn lemma_line_is_visible(lines: Seq<Seq<char>>, marks: Seq<Mark>, i: int)
    requires
        marks.is_prefix_of(all_marks(lines)),
        0 <= i < collapsed(marks).len(),
    ensures
        0 <= collapsed(marks)[i].line < lines.len(),
        !strings::blank(lines[collapsed(marks)[i].line]),
    decreases marks.len(),
{
    if marks.len() > 0 {
        let head = marks.drop_last();
        let old = collapsed(head);
        assert(head =~= all_marks(lines).take(head.len() as int));
        lemma_gap_start(head);
        lemma_gap_follows_visible(head);
        lemma_all_marks(lines);
        assert forall|j: int| 0 <= j < marks.len() implies marks[j] == #[trigger] all_marks(
            lines,
        )[j] by {
            assert(marks =~= all_marks(lines).take(marks.len() as int));
        }
        if i < old.len() {
            lemma_line_is_visible(lines, head, i);
        } else {
            let gap = gap_start(head);
            let j = if old.len() > 0 && gap < marks.len() - 1 && i == old.len() {
                gap - 1
            } else {
                marks.len() - 1
            };
            if j == gap - 1 {
                assert(head[j] == all_marks(lines)[j]);
                lemma_neighbours(lines, gap);
            }
            assert(marks[j] == all_marks(lines)[j]);
            assert(stands_at(lines, all_marks(lines)[j]));
        }
    }
}

/// Every character of a normalized text stands in a line that is not blank.
pub proof fn law_positions_lie_in_visible_lines(lines: Seq<Seq<char>>, i: int)
    requires
        0 <= i < normal_marks(lines).len(),
    ensures
        0 <= normal_marks(lines)[i].line < lines.len(),
        !strings::blank(lines[normal_marks(lines)[i].line]),
{
    assert(all_marks(lines).is_prefix_of(all_marks(lines))) by {
        assert(all_marks(lines) =~= all_marks(lines).take(all_marks(lines).len() as int));
    }
    lemma_line_is_visible(lines, all_marks(lines), i);
}

} // verus!
