//! String operations over sequences of characters: whitespace, trimming, splitting,
//! searching, joining and decimal numbers.
use crate::text::{to_chars, to_text};
use vstd::prelude::*;
use vstd::string::*;

verus! {

/// The characters with the Unicode property `White_Space`.
pub open spec fn whitespace(ch: char) -> bool {
    ||| '\u{9}' <= ch <= '\u{d}'
    ||| ch == '\u{20}'
    ||| ch == '\u{85}'
    ||| ch == '\u{a0}'
    ||| ch == '\u{1680}'
    ||| '\u{2000}' <= ch <= '\u{200a}'
    ||| ch == '\u{2028}'
    ||| ch == '\u{2029}'
    ||| ch == '\u{202f}'
    ||| ch == '\u{205f}'
    ||| ch == '\u{3000}'
}

/// Whether a character is whitespace.
pub fn is_whitespace(ch: char) -> (yes: bool)
    ensures
        yes == whitespace(ch),
{
    ('\u{9}' <= ch && ch <= '\u{d}') || ch == '\u{20}' || ch == '\u{85}' || ch == '\u{a0}' || ch
        == '\u{1680}' || ('\u{2000}' <= ch && ch <= '\u{200a}') || ch == '\u{2028}' || ch
        == '\u{2029}' || ch == '\u{202f}' || ch == '\u{205f}' || ch == '\u{3000}'
}

/// The views of a sequence of strings.
pub open spec fn texts(strings: Seq<String>) -> Seq<Seq<char>> {
    Seq::new(strings.len(), |i: int| strings[i]@)
}

/// The view of an optional string.
pub open spec fn opt_text(text: Option<String>) -> Option<Seq<char>> {
    match text {
        Some(text) => Some(text@),
        None => None,
    }
}

/// The view of an optional string slice.
pub open spec fn opt_str(text: Option<&str>) -> Option<Seq<char>> {
    match text {
        Some(text) => Some(text@),
        None => None,
    }
}

// ---------------------------------------------------------------------------
// Trimming
// ---------------------------------------------------------------------------
/// A text without its leading whitespace.
pub open spec fn trimmed_start(text: Seq<char>) -> Seq<char>
    decreases text.len(),
{
    if text.len() > 0 && whitespace(text[0]) {
        trimmed_start(text.skip(1))
    } else {
        text
    }
}

/// A text without its trailing whitespace.
pub open spec fn trimmed_end(text: Seq<char>) -> Seq<char>
    decreases text.len(),
{
    if text.len() > 0 && whitespace(text.last()) {
        trimmed_end(text.drop_last())
    } else {
        text
    }
}

/// A text without its leading and trailing whitespace.
pub open spec fn trimmed(text: Seq<char>) -> Seq<char> {
    trimmed_end(trimmed_start(text))
}

/// Whether a text holds nothing but whitespace.
pub open spec fn blank(text: Seq<char>) -> bool {
    forall|i: int| 0 <= i < text.len() ==> whitespace(#[trigger] text[i])
}

/// A text is blank exactly when trimming leaves nothing of it.
pub proof fn law_blank_is_trimmed_to_nothing(text: Seq<char>)
    ensures
        blank(text) <==> trimmed(text).len() == 0,
        blank(text) <==> trimmed_start(text).len() == 0,
{
    lemma_trimmed_start(text);
    lemma_trimmed_end(trimmed_start(text));
}

proof fn lemma_trimmed_start(text: Seq<char>)
    ensures
        blank(text) <==> trimmed_start(text).len() == 0,
        trimmed_start(text).len() > 0 ==> !whitespace(trimmed_start(text)[0]),
    decreases text.len(),
{
    if text.len() > 0 && whitespace(text[0]) {
        lemma_trimmed_start(text.skip(1));
        if blank(text.skip(1)) {
            assert forall|i: int| 0 <= i < text.len() implies whitespace(#[trigger] text[i]) by {
                if i > 0 {
                    assert(text[i] == text.skip(1)[i - 1]);
                }
            }
        }
        if blank(text) {
            assert forall|i: int| 0 <= i < text.skip(1).len() implies whitespace(
                #[trigger] text.skip(1)[i],
            ) by {
                assert(text.skip(1)[i] == text[i + 1]);
            }
        }
    } else if text.len() > 0 {
        assert(!whitespace(text[0]));
    }
}

proof fn lemma_trimmed_end(text: Seq<char>)
    ensures
        text.len() > 0 && !whitespace(text[0]) ==> trimmed_end(text).len() > 0,
        text.len() == 0 ==> trimmed_end(text).len() == 0,
    decreases text.len(),
{
    if text.len() > 1 && whitespace(text.last()) {
        assert(text.drop_last()[0] == text[0]);
        lemma_trimmed_end(text.drop_last());
    }
}

/// The index of the first character that is not whitespace.
fn first_visible(chars: &[char]) -> (index: usize)
    ensures
        index <= chars@.len(),
        trimmed_start(chars@) == chars@.skip(index as int),
{
    let mut index: usize = 0;
    assert(chars@.skip(0) =~= chars@);
    while index < chars.len() && is_whitespace(chars[index])
        invariant
            index <= chars@.len(),
            trimmed_start(chars@) == trimmed_start(chars@.skip(index as int)),
        decreases chars@.len() - index,
    {
        assert(chars@.skip(index as int)[0] == chars@[index as int]);
        assert(chars@.skip(index as int).skip(1) =~= chars@.skip(index as int + 1));
        index = index + 1;
    }
    if index < chars.len() {
        assert(chars@.skip(index as int)[0] == chars@[index as int]);
    }
    index
}

/// The index after the last character at or after `start` that is not whitespace.
fn last_visible(chars: &[char], start: usize) -> (index: usize)
    requires
        start <= chars@.len(),
    ensures
        start <= index <= chars@.len(),
        trimmed_end(chars@.skip(start as int)) == chars@.subrange(start as int, index as int),
{
    let mut index: usize = chars.len();
    assert(chars@.skip(start as int) =~= chars@.subrange(start as int, index as int));
    while start < index && is_whitespace(chars[index - 1])
        invariant
            start <= index <= chars@.len(),
            trimmed_end(chars@.skip(start as int)) == trimmed_end(
                chars@.subrange(start as int, index as int),
            ),
        decreases index,
    {
        let ghost part = chars@.subrange(start as int, index as int);
        assert(part.last() == chars@[index - 1]);
        assert(part.drop_last() =~= chars@.subrange(start as int, index - 1));
        index = index - 1;
    }
    if start < index {
        assert(chars@.subrange(start as int, index as int).last() == chars@[index - 1]);
    }
    index
}

/// A text without its leading whitespace.
pub fn trim_start(text: &str) -> (rest: String)
    ensures
        rest@ == trimmed_start(text@),
{
    let chars = to_chars(text);
    let start = first_visible(&chars);
    assert(chars@.skip(start as int) =~= chars@.subrange(start as int, chars@.len() as int));
    to_text(&chars, start, chars.len())
}

/// A text without its leading and trailing whitespace.
pub fn trim(text: &str) -> (rest: String)
    ensures
        rest@ == trimmed(text@),
{
    let chars = to_chars(text);
    let start = first_visible(&chars);
    let end = last_visible(&chars, start);
    to_text(&chars, start, end)
}

/// Whether a text holds nothing but whitespace.
pub fn is_blank(text: &str) -> (yes: bool)
    ensures
        yes == blank(text@),
{
    let chars = to_chars(text);
    let start = first_visible(&chars);
    proof {
        lemma_trimmed_start(text@);
    }
    start == chars.len()
}

// ---------------------------------------------------------------------------
// Splitting
// ---------------------------------------------------------------------------
/// The pieces of a text between its separators.
pub open spec fn pieces(text: Seq<char>, separator: spec_fn(char) -> bool) -> Seq<Seq<char>>
    decreases text.len(),
{
    if text.len() == 0 {
        seq![Seq::<char>::empty()]
    } else {
        let head = pieces(text.drop_last(), separator);
        if separator(text.last()) {
            head.push(Seq::<char>::empty())
        } else {
            head.drop_last().push(head.last().push(text.last()))
        }
    }
}

/// The separator of lines.
pub open spec fn newline() -> spec_fn(char) -> bool {
    |ch: char| ch == '\n'
}

/// The separators of words.
pub open spec fn gap() -> spec_fn(char) -> bool {
    |ch: char| whitespace(ch)
}

/// The lines of a text: its pieces between newlines.
pub open spec fn split_at_newlines(text: Seq<char>) -> Seq<Seq<char>> {
    pieces(text, newline())
}

/// The pieces that are not empty.
pub open spec fn visible() -> spec_fn(Seq<char>) -> bool {
    |piece: Seq<char>| piece.len() > 0
}

/// The words of a text: its maximal runs of characters that are not whitespace.
pub open spec fn words(text: Seq<char>) -> Seq<Seq<char>> {
    pieces(text, gap()).filter(visible())
}

/// The parts with the separator between each two.
pub open spec fn joined(parts: Seq<Seq<char>>, separator: Seq<char>) -> Seq<char>
    decreases parts.len(),
{
    if parts.len() == 0 {
        Seq::<char>::empty()
    } else if parts.len() == 1 {
        parts[0]
    } else {
        joined(parts.drop_last(), separator) + separator + parts.last()
    }
}

/// The parts one after the other.
pub open spec fn concatenated(parts: Seq<Seq<char>>) -> Seq<char>
    decreases parts.len(),
{
    if parts.len() == 0 {
        Seq::<char>::empty()
    } else {
        concatenated(parts.drop_last()) + parts.last()
    }
}

/// There is always at least one piece, and no piece holds a separator.
pub proof fn lemma_pieces(text: Seq<char>, separator: spec_fn(char) -> bool)
    ensures
        pieces(text, separator).len() > 0,
        forall|i: int, j: int|
            0 <= i < pieces(text, separator).len() && 0 <= j < pieces(text, separator)[i].len()
                ==> !separator(#[trigger] pieces(text, separator)[i][j]),
    decreases text.len(),
{
    if text.len() > 0 {
        lemma_pieces(text.drop_last(), separator);
    }
}

/// Joining the lines of a text gives the text back, and no line holds a newline.
pub proof fn law_lines_join_to_the_text(text: Seq<char>)
    ensures
        split_at_newlines(text).len() > 0,
        joined(split_at_newlines(text), seq!['\n']) == text,
        forall|i: int|
            0 <= i < split_at_newlines(text).len() ==> !(
            #[trigger] split_at_newlines(text)[i]).contains('\n'),
    decreases text.len(),
{
    lemma_pieces(text, newline());
    assert forall|i: int| 0 <= i < split_at_newlines(text).len() implies !(
    #[trigger] split_at_newlines(text)[i]).contains('\n') by {
        let line = split_at_newlines(text)[i];
        assert forall|j: int| 0 <= j < line.len() implies line[j] != '\n' by {
            assert(!newline()(pieces(text, newline())[i][j]));
        }
    }
    if text.len() > 0 {
        let head = split_at_newlines(text.drop_last());
        law_lines_join_to_the_text(text.drop_last());
        let lines = split_at_newlines(text);
        if text.last() == '\n' {
            assert(lines.drop_last() =~= head);
            assert(joined(lines, seq!['\n']) =~= text);
        } else {
            assert(lines.drop_last() =~= head.drop_last());
            assert(lines.last() =~= head.last().push(text.last()));
            assert(joined(lines, seq!['\n']) =~= joined(head, seq!['\n']).push(text.last()));
            assert(text =~= text.drop_last().push(text.last()));
        }
    }
}

/// The lines of a text.
pub fn split_lines(text: &str) -> (lines: Vec<String>)
    ensures
        texts(lines@) == split_at_newlines(text@),
{
    let chars = to_chars(text);
    let mut lines: Vec<String> = Vec::new();
    let mut current = String::new();
    let mut index: usize = 0;
    assert(chars@.take(0) =~= Seq::<char>::empty());
    assert(texts(lines@).push(current@) =~= split_at_newlines(chars@.take(0)));
    while index < chars.len()
        invariant
            index <= chars@.len(),
            texts(lines@).push(current@) == split_at_newlines(chars@.take(index as int)),
        decreases chars@.len() - index,
    {
        let ghost before = texts(lines@).push(current@);
        let ghost old_lines = texts(lines@);
        let ghost old_current = current@;
        assert(chars@.take(index as int + 1).drop_last() =~= chars@.take(index as int));
        assert(chars@.take(index as int + 1).last() == chars@[index as int]);
        assert(before.drop_last() =~= old_lines);
        if chars[index] == '\n' {
            lines.push(current);
            current = String::new();
            assert(texts(lines@) =~= before);
        } else {
            current.push(chars[index]);
        }
        assert(texts(lines@).push(current@) =~= split_at_newlines(chars@.take(index as int + 1)));
        index = index + 1;
    }
    lines.push(current);
    assert(chars@.take(chars@.len() as int) =~= chars@);
    assert(texts(lines@) =~= split_at_newlines(text@));
    lines
}

/// The words of a text.
pub fn split_words(text: &str) -> (found: Vec<String>)
    ensures
        texts(found@) == words(text@),
{
    let chars = to_chars(text);
    let mut found: Vec<String> = Vec::new();
    let mut current = String::new();
    let mut index: usize = 0;
    proof {
        reveal(Seq::filter);
    }
    assert(chars@.take(0) =~= Seq::<char>::empty());
    assert(pieces(chars@.take(0), gap()).drop_last() =~= Seq::<Seq<char>>::empty());
    assert(texts(found@) =~= pieces(chars@.take(0), gap()).drop_last().filter(visible()));
    while index < chars.len()
        invariant
            index <= chars@.len(),
            texts(found@) == pieces(chars@.take(index as int), gap()).drop_last().filter(visible()),
            current@ == pieces(chars@.take(index as int), gap()).last(),
        decreases chars@.len() - index,
    {
        let ghost head = pieces(chars@.take(index as int), gap());
        proof {
            reveal(Seq::filter);
            lemma_pieces(chars@.take(index as int), gap());
        }
        assert(chars@.take(index as int + 1).drop_last() =~= chars@.take(index as int));
        assert(chars@.take(index as int + 1).last() == chars@[index as int]);
        let ghost next = pieces(chars@.take(index as int + 1), gap());
        if is_whitespace(chars[index]) {
            let ghost old_found = texts(found@);
            assert(next.drop_last() =~= head);
            if current.as_str().is_empty() {
                assert(head.filter(visible()) =~= head.drop_last().filter(visible()));
            } else {
                found.push(current);
                current = String::new();
                assert(texts(found@) =~= old_found.push(head.last()));
            }
        } else {
            current.push(chars[index]);
            assert(next.drop_last() =~= head.drop_last());
        }
        index = index + 1;
    }
    assert(chars@.take(chars@.len() as int) =~= chars@);
    let ghost all = pieces(text@, gap());
    proof {
        reveal(Seq::filter);
        lemma_pieces(text@, gap());
    }
    if !current.as_str().is_empty() {
        let ghost old_found = texts(found@);
        found.push(current);
        assert(texts(found@) =~= old_found.push(all.last()));
    }
    found
}

/// The parts with the separator between each two.
pub fn join(parts: &[String], separator: &str) -> (text: String)
    ensures
        text@ == joined(texts(parts@), separator@),
{
    let mut text = String::new();
    let mut index: usize = 0;
    let ghost all = texts(parts@);
    assert(all.take(0) =~= Seq::<Seq<char>>::empty());
    while index < parts.len()
        invariant
            index <= parts@.len(),
            all == texts(parts@),
            text@ == joined(all.take(index as int), separator@),
        decreases parts@.len() - index,
    {
        assert(all.take(index as int + 1).drop_last() =~= all.take(index as int));
        assert(all.take(index as int + 1).last() == parts@[index as int]@);
        if index > 0 {
            text.append(separator);
        } else {
            assert(text@ =~= Seq::<char>::empty());
        }
        text.append(parts[index].as_str());
        assert(text@ =~= joined(all.take(index as int + 1), separator@));
        index = index + 1;
    }
    assert(all.take(parts@.len() as int) =~= all);
    text
}

/// A line without the carriage return before its newline.
pub open spec fn without_carriage_return(line: Seq<char>) -> Seq<char> {
    if line.len() > 0 && line.last() == '\r' {
        line.drop_last()
    } else {
        line
    }
}

/// The lines of a text as a reader counts them: a newline, with or without a carriage
/// return before it, ends a line, and nothing follows the newline that ends the text.
pub open spec fn text_lines(text: Seq<char>) -> Seq<Seq<char>> {
    let parts = split_at_newlines(text);
    let ended = parts.drop_last().map_values(|line: Seq<char>| without_carriage_return(line));
    if parts.last().len() == 0 {
        ended
    } else {
        ended.push(parts.last())
    }
}

/// A line without the carriage return before its newline.
fn strip_carriage_return(line: &str) -> (rest: String)
    ensures
        rest@ == without_carriage_return(line@),
{
    let chars = to_chars(line);
    let count: usize = chars.len();
    if count > 0 && chars[count - 1] == '\r' {
        assert(chars@.drop_last() =~= chars@.subrange(0, count as int - 1));
        to_text(&chars, 0, count - 1)
    } else {
        line.to_owned()
    }
}

/// The lines of a text as a reader counts them.
pub fn reader_lines(text: &str) -> (lines: Vec<String>)
    ensures
        texts(lines@) == text_lines(text@),
{
    let parts = split_lines(text);
    proof {
        lemma_pieces(text@, newline());
    }
    let ghost all = split_at_newlines(text@);
    let ghost ended = all.drop_last().map_values(
        |line: Seq<char>| without_carriage_return(line),
    );
    assert(parts@.len() == texts(parts@).len());
    let mut lines: Vec<String> = Vec::new();
    let mut index: usize = 0;
    while index < parts.len() - 1
        invariant
            index <= parts@.len() - 1,
            all == texts(parts@),
            ended == all.drop_last().map_values(|line: Seq<char>| without_carriage_return(line)),
            texts(lines@) =~= ended.take(index as int),
        decreases parts@.len() - index,
    {
        let ghost before = texts(lines@);
        lines.push(strip_carriage_return(parts[index].as_str()));
        assert(all[index as int] == parts@[index as int]@);
        assert(texts(lines@) =~= before.push(ended[index as int]));
        assert(ended.take(index as int + 1) =~= ended.take(index as int).push(ended[index as int]));
        index = index + 1;
    }
    assert(ended.take(index as int) =~= ended);
    let last = &parts[index];
    if !last.as_str().is_empty() {
        lines.push(last.clone());
        assert(texts(lines@) =~= ended.push(all.last()));
    }
    lines
}

// ---------------------------------------------------------------------------
// Removing and searching
// ---------------------------------------------------------------------------
/// A text without each two neighbouring marks, taken from left to right.
pub open spec fn without_pairs(text: Seq<char>, mark: char) -> Seq<char>
    decreases text.len(),
{
    if text.len() == 0 {
        text
    } else if text.len() >= 2 && text[0] == mark && text[1] == mark {
        without_pairs(text.skip(2), mark)
    } else {
        seq![text[0]] + without_pairs(text.skip(1), mark)
    }
}

/// The characters other than a mark.
pub open spec fn other_than(mark: char) -> spec_fn(char) -> bool {
    |ch: char| ch != mark
}

/// A text without a character.
pub open spec fn without_char(text: Seq<char>, mark: char) -> Seq<char> {
    text.filter(other_than(mark))
}

/// A text without each two neighbouring marks.
pub fn remove_pairs(text: &str, mark: char) -> (rest: String)
    ensures
        rest@ == without_pairs(text@, mark),
{
    let chars = to_chars(text);
    let mut rest = String::new();
    let mut index: usize = 0;
    assert(chars@.skip(0) =~= chars@);
    assert(rest@ + without_pairs(chars@.skip(0), mark) =~= without_pairs(chars@, mark));
    while index < chars.len()
        invariant
            index <= chars@.len(),
            rest@ + without_pairs(chars@.skip(index as int), mark) == without_pairs(chars@, mark),
        decreases chars@.len() - index,
    {
        let ghost tail = chars@.skip(index as int);
        assert(tail[0] == chars@[index as int]);
        if chars.len() - index >= 2 && chars[index] == mark && chars[index + 1] == mark {
            assert(tail[1] == chars@[index as int + 1]);
            assert(tail.skip(2) =~= chars@.skip(index as int + 2));
            index = index + 2;
        } else {
            assert(tail.len() >= 2 ==> tail[1] == chars@[index as int + 1]);
            assert(tail.skip(1) =~= chars@.skip(index as int + 1));
            let ghost before = rest@;
            rest.push(chars[index]);
            assert(rest@ + without_pairs(tail.skip(1), mark) =~= before + without_pairs(
                tail,
                mark,
            ));
            index = index + 1;
        }
    }
    assert(rest@ + without_pairs(chars@.skip(index as int), mark) =~= rest@);
    rest
}

/// A text without a character.
pub fn remove_char(text: &str, mark: char) -> (rest: String)
    ensures
        rest@ == without_char(text@, mark),
{
    let chars = to_chars(text);
    let mut rest = String::new();
    let mut index: usize = 0;
    proof {
        reveal(Seq::filter);
    }
    assert(chars@.take(0) =~= Seq::<char>::empty());
    while index < chars.len()
        invariant
            index <= chars@.len(),
            rest@ == without_char(chars@.take(index as int), mark),
        decreases chars@.len() - index,
    {
        proof {
            reveal(Seq::filter);
        }
        assert(chars@.take(index as int + 1).drop_last() =~= chars@.take(index as int));
        assert(chars@.take(index as int + 1).last() == chars@[index as int]);
        if chars[index] != mark {
            rest.push(chars[index]);
        }
        index = index + 1;
    }
    assert(chars@.take(chars@.len() as int) =~= chars@);
    rest
}

/// Whether a text holds the needle at an index.
pub open spec fn occurs_at(text: Seq<char>, needle: Seq<char>, index: int) -> bool {
    &&& 0 <= index
    &&& index + needle.len() <= text.len()
    &&& text.subrange(index, index + needle.len()) == needle
}

/// The least index at or after `start` at which the text holds the needle.
pub open spec fn occurrence_from(text: Seq<char>, needle: Seq<char>, start: int) -> Option<int>
    decreases text.len() + 1 - start,
{
    if start + needle.len() > text.len() {
        None
    } else if occurs_at(text, needle, start) {
        Some(start)
    } else {
        occurrence_from(text, needle, start + 1)
    }
}

/// `occurrence_from` finds the least index, and finds one whenever there is one.
pub proof fn law_occurrence_is_the_first(text: Seq<char>, needle: Seq<char>, start: int)
    requires
        0 <= start,
    ensures
        match occurrence_from(text, needle, start) {
            Some(index) => {
                &&& start <= index
                &&& occurs_at(text, needle, index)
                &&& forall|other: int|
                    start <= other < index ==> !#[trigger] occurs_at(text, needle, other)
            },
            None => forall|other: int| start <= other ==> !#[trigger] occurs_at(text, needle, other),
        },
    decreases text.len() + 1 - start,
{
    if start + needle.len() <= text.len() && !occurs_at(text, needle, start) {
        law_occurrence_is_the_first(text, needle, start + 1);
    }
}

/// Whether the characters hold the needle at an index.
pub fn matches_at(chars: &[char], needle: &[char], index: usize) -> (yes: bool)
    ensures
        yes == occurs_at(chars@, needle@, index as int),
{
    if index > chars.len() || needle.len() > chars.len() - index {
        return false;
    }
    let total: usize = chars.len();
    let mut count: usize = 0;
    while count < needle.len()
        invariant
            count <= needle@.len(),
            total == chars@.len(),
            index + needle@.len() <= total,
            forall|i: int| 0 <= i < count ==> chars@[index + i] == needle@[i],
        decreases needle@.len() - count,
    {
        if chars[index + count] != needle[count] {
            assert(chars@.subrange(index as int, index + needle@.len())[count as int]
                == chars@[index + count]);
            return false;
        }
        count = count + 1;
    }
    assert(chars@.subrange(index as int, index + needle@.len()) =~= needle@);
    true
}

/// The least index at or after `start` at which the characters hold the needle.
pub fn find_from(chars: &[char], needle: &[char], start: usize) -> (found: Option<usize>)
    ensures
        match found {
            Some(index) => occurrence_from(chars@, needle@, start as int) == Some(index as int),
            None => occurrence_from(chars@, needle@, start as int) is None,
        },
{
    let mut index: usize = start;
    if index > chars.len() || needle.len() > chars.len() - index {
        return None;
    }
    while needle.len() <= chars.len() - index
        invariant
            start <= index <= chars@.len(),
            occurrence_from(chars@, needle@, start as int) == occurrence_from(
                chars@,
                needle@,
                index as int,
            ),
        decreases chars@.len() - index,
    {
        if matches_at(chars, needle, index) {
            return Some(index);
        }
        if index == chars.len() {
            assert(chars@.subrange(index as int, index as int) =~= Seq::<char>::empty());
            assert(needle@ =~= Seq::<char>::empty());
            return None;
        }
        index = index + 1;
    }
    None
}

/// Whether a text starts with another.
pub fn starts_with(text: &str, prefix: &str) -> (yes: bool)
    ensures
        yes == prefix@.is_prefix_of(text@),
{
    let chars = to_chars(text);
    let head = to_chars(prefix);
    let yes = matches_at(&chars, &head, 0);
    assert(prefix@.len() <= text@.len() ==> text@.subrange(0, prefix@.len() as int) =~= text@.take(
        prefix@.len() as int,
    ));
    yes
}

/// Whether two texts are the same.
pub fn same_text(left: &str, right: &str) -> (yes: bool)
    ensures
        yes == (left@ == right@),
{
    let a = to_chars(left);
    let b = to_chars(right);
    if a.len() != b.len() {
        return false;
    }
    let yes = matches_at(&a, &b, 0);
    assert(a@.subrange(0, a@.len() as int) =~= a@);
    yes
}

// ---------------------------------------------------------------------------
// Numbers and copies
// ---------------------------------------------------------------------------
/// The decimal digits of a number.
pub open spec fn decimal(number: nat) -> Seq<char>
    decreases number,
{
    if number < 10 {
        seq![(48 + number) as char]
    } else {
        decimal(number / 10).push((48 + number % 10) as char)
    }
}

/// Appends the decimal digits of a number.
pub fn push_decimal(text: &mut String, number: u64)
    ensures
        final(text)@ == old(text)@ + decimal(number as nat),
    decreases number,
{
    if number < 10 {
        text.push((48u8 + number as u8) as char);
        assert(text@ =~= old(text)@ + decimal(number as nat));
    } else {
        push_decimal(text, number / 10);
        text.push((48u8 + (number % 10) as u8) as char);
        assert(text@ =~= old(text)@ + decimal(number as nat));
    }
}

/// A copy of a list of strings.
pub fn copy_strings(strings: &[String]) -> (copy: Vec<String>)
    ensures
        texts(copy@) == texts(strings@),
        copy@ == strings@,
{
    let mut copy: Vec<String> = Vec::new();
    let mut index: usize = 0;
    while index < strings.len()
        invariant
            index <= strings@.len(),
            copy@ =~= strings@.take(index as int),
        decreases strings@.len() - index,
    {
        copy.push(strings[index].clone());
        index = index + 1;
    }
    assert(copy@ =~= strings@);
    copy
}

/// A copy of an optional string.
pub fn copy_optional(text: &Option<String>) -> (copy: Option<String>)
    ensures
        copy == *text,
{
    match text {
        Some(text) => Some(text.clone()),
        None => None,
    }
}

// ---------------------------------------------------------------------------
// What the operations leave and take away
// ---------------------------------------------------------------------------
/// Whether no character of a text is a given one.
pub open spec fn lacks(text: Seq<char>, mark: char) -> bool {
    forall|i: int| 0 <= i < text.len() ==> #[trigger] text[i] != mark
}

proof fn lemma_trims_start(before: Seq<char>, rest: Seq<char>)
    requires
        blank(before),
        rest.len() == 0 || !whitespace(rest[0]),
    ensures
        trimmed_start(before + rest) == rest,
    decreases before.len(),
{
    if before.len() > 0 {
        assert((before + rest)[0] == before[0]);
        assert((before + rest).skip(1) =~= before.skip(1) + rest);
        lemma_trims_start(before.skip(1), rest);
    } else {
        assert(before + rest =~= rest);
    }
}

proof fn lemma_trims_end(rest: Seq<char>, after: Seq<char>)
    requires
        blank(after),
        rest.len() == 0 || !whitespace(rest.last()),
    ensures
        trimmed_end(rest + after) == rest,
    decreases after.len(),
{
    if after.len() > 0 {
        assert((rest + after).last() == after.last());
        assert((rest + after).drop_last() =~= rest + after.drop_last());
        lemma_trims_end(rest, after.drop_last());
    } else {
        assert(rest + after =~= rest);
    }
}

/// Trimming takes the whitespace around a text away and leaves everything between its first
/// and its last visible character.
pub proof fn law_trimming_leaves_the_visible_middle(
    before: Seq<char>,
    middle: Seq<char>,
    after: Seq<char>,
)
    requires
        blank(before),
        blank(after),
        middle.len() > 0,
        !whitespace(middle[0]),
        !whitespace(middle.last()),
    ensures
        trimmed(before + middle + after) == middle,
        trimmed_start(before + middle + after) == middle + after,
{
    assert(before + middle + after =~= before + (middle + after));
    lemma_trims_start(before, middle + after);
    lemma_trims_end(middle, after);
}

proof fn lemma_last_piece_grows(text: Seq<char>, word: Seq<char>, separator: spec_fn(char) -> bool)
    requires
        forall|i: int| 0 <= i < word.len() ==> !separator(#[trigger] word[i]),
    ensures
        pieces(text + word, separator) == pieces(text, separator).drop_last().push(
            pieces(text, separator).last() + word,
        ),
    decreases word.len(),
{
    let whole = text + word;
    lemma_pieces(text, separator);
    if word.len() == 0 {
        assert(whole =~= text);
        assert(pieces(text, separator).last() + word =~= pieces(text, separator).last());
    } else {
        assert(whole.drop_last() =~= text + word.drop_last());
        assert(whole.last() == word.last());
        lemma_last_piece_grows(text, word.drop_last(), separator);
        assert(pieces(text, separator).last() + word =~= (pieces(text, separator).last()
            + word.drop_last()).push(word.last()));
    }
}

/// Whitespace behind a text adds no word, and a run of visible characters behind whitespace
/// adds itself as one word.
pub proof fn law_words_are_the_visible_runs(text: Seq<char>, space: char, word: Seq<char>)
    requires
        whitespace(space),
        word.len() > 0,
        forall|i: int| 0 <= i < word.len() ==> !whitespace(#[trigger] word[i]),
    ensures
        words(Seq::<char>::empty()).len() == 0,
        words(word) == seq![word],
        words(text.push(space)) == words(text),
        words(text.push(space) + word) == words(text).push(word),
{
    let empty = Seq::<char>::empty();
    reveal(Seq::filter);
    reveal_with_fuel(Seq::filter, 2);
    assert(pieces(empty, gap()) =~= seq![empty]);
    assert(seq![empty].drop_last() =~= Seq::<Seq<char>>::empty());
    assert(text.push(space).drop_last() =~= text);
    let parts = pieces(text, gap());
    assert(pieces(text.push(space), gap()) == parts.push(empty));
    assert(parts.push(empty).drop_last() =~= parts);
    lemma_last_piece_grows(text.push(space), word, gap());
    assert(empty + word =~= word);
    assert(pieces(text.push(space) + word, gap()) =~= parts.push(word));
    assert(parts.push(word).drop_last() =~= parts);
    lemma_last_piece_grows(empty, word, gap());
    assert(pieces(word, gap()) =~= seq![word]);
    assert(seq![word].drop_last() =~= Seq::<Seq<char>>::empty());
}

proof fn lemma_first_piece(
    line: Seq<char>,
    rest: Seq<char>,
    mark: char,
    separator: spec_fn(char) -> bool,
)
    requires
        separator(mark),
        forall|i: int| 0 <= i < line.len() ==> !separator(#[trigger] line[i]),
    ensures
        pieces(line.push(mark) + rest, separator) == seq![line] + pieces(rest, separator),
    decreases rest.len(),
{
    let empty = Seq::<char>::empty();
    let whole = line.push(mark) + rest;
    lemma_pieces(rest, separator);
    if rest.len() == 0 {
        assert(whole =~= line.push(mark));
        assert(line.push(mark).drop_last() =~= line);
        lemma_last_piece_grows(empty, line, separator);
        assert(empty + line =~= line);
        assert(pieces(line, separator) =~= seq![line]);
        assert(pieces(whole, separator) =~= seq![line] + pieces(rest, separator));
    } else {
        assert(whole.drop_last() =~= line.push(mark) + rest.drop_last());
        assert(whole.last() == rest.last());
        lemma_first_piece(line, rest.drop_last(), mark, separator);
        lemma_pieces(rest.drop_last(), separator);
        assert(pieces(whole, separator) =~= seq![line] + pieces(rest, separator));
    }
}

/// A line ends at its newline, and a carriage return before the newline is no part of it.
/// What stands behind the last newline is a line only where it is not empty.
pub proof fn law_lines_end_at_newlines(line: Seq<char>, rest: Seq<char>)
    requires
        lacks(line, '\n'),
    ensures
        split_at_newlines(line) == seq![line],
        split_at_newlines(line.push('\n') + rest) == seq![line] + split_at_newlines(rest),
        text_lines(Seq::<char>::empty()).len() == 0,
        line.len() > 0 ==> text_lines(line) == seq![line],
        line.len() == 0 || line.last() != '\r' ==> text_lines(line.push('\n') + rest) == seq![line]
            + text_lines(rest),
        line.len() > 0 && line.last() == '\r' ==> text_lines(line.push('\n') + rest)
            == seq![line.drop_last()] + text_lines(rest),
{
    let empty = Seq::<char>::empty();
    lemma_last_piece_grows(empty, line, newline());
    assert(empty + line =~= line);
    assert(split_at_newlines(line) =~= seq![line]);
    assert(split_at_newlines(empty) =~= seq![empty]);
    lemma_first_piece(line, rest, '\n', newline());
    lemma_pieces(rest, newline());
    let parts = split_at_newlines(rest);
    let all = split_at_newlines(line.push('\n') + rest);
    assert(all.last() == parts.last());
    assert(text_lines(line.push('\n') + rest) =~= seq![without_carriage_return(line)]
        + text_lines(rest));
    assert(text_lines(line) =~= if line.len() == 0 {
        Seq::<Seq<char>>::empty()
    } else {
        seq![line]
    });
    assert(text_lines(empty) =~= Seq::<Seq<char>>::empty());
}

/// Every pair of a mark is taken away, from left to right, and nothing else.
pub proof fn law_pairs_are_taken_away(before: Seq<char>, rest: Seq<char>, mark: char)
    requires
        lacks(before, mark),
    ensures
        without_pairs(before, mark) == before,
        without_pairs(before + seq![mark, mark] + rest, mark) == before + without_pairs(rest, mark),
        rest.len() == 0 || rest[0] != mark ==> without_pairs(before + seq![mark] + rest, mark)
            == before + seq![mark] + without_pairs(rest, mark),
    decreases before.len(),
{
    let pair = seq![mark, mark];
    if before.len() == 0 {
        assert(before + pair + rest =~= pair + rest);
        assert((pair + rest).skip(2) =~= rest);
        assert(before + without_pairs(rest, mark) =~= without_pairs(rest, mark));
        assert(before + seq![mark] + rest =~= seq![mark] + rest);
        assert((seq![mark] + rest).skip(1) =~= rest);
        assert(before + seq![mark] + without_pairs(rest, mark) =~= seq![mark] + without_pairs(
            rest,
            mark,
        ));
        if rest.len() > 0 {
            assert((seq![mark] + rest)[1] == rest[0]);
        }
    } else {
        law_pairs_are_taken_away(before.skip(1), rest, mark);
        assert(seq![before[0]] + before.skip(1) =~= before);
        assert((before + pair + rest).skip(1) =~= before.skip(1) + pair + rest);
        assert((before + seq![mark] + rest).skip(1) =~= before.skip(1) + seq![mark] + rest);
        assert(without_pairs(before + pair + rest, mark) =~= seq![before[0]] + without_pairs(
            before.skip(1) + pair + rest,
            mark,
        ));
        assert(without_pairs(before + pair + rest, mark) =~= before + without_pairs(rest, mark));
        if rest.len() == 0 || rest[0] != mark {
            assert(without_pairs(before + seq![mark] + rest, mark) =~= before + seq![mark]
                + without_pairs(rest, mark));
        }
    }
}

/// Taking a character away leaves every other one, in the same order.
pub proof fn law_marks_are_taken_away(text: Seq<char>, ch: char, mark: char)
    ensures
        without_char(Seq::<char>::empty(), mark).len() == 0,
        without_char(text.push(mark), mark) == without_char(text, mark),
        ch != mark ==> without_char(text.push(ch), mark) == without_char(text, mark).push(ch),
        lacks(without_char(text, mark), mark),
        lacks(text, mark) ==> without_char(text, mark) == text,
    decreases text.len(),
{
    reveal(Seq::filter);
    assert(text.push(mark).drop_last() =~= text);
    assert(text.push(ch).drop_last() =~= text);
    if text.len() > 0 {
        law_marks_are_taken_away(text.drop_last(), text.last(), mark);
        assert(text =~= text.drop_last().push(text.last()));
        let head = without_char(text.drop_last(), mark);
        if text.last() != mark {
            assert(without_char(text, mark) =~= head.push(text.last()));
        }
        if lacks(text, mark) {
            assert(lacks(text.drop_last(), mark));
        }
    }
}

/// The number that a text of decimal digits stands for.
pub open spec fn number_of(digits: Seq<char>) -> int
    decreases digits.len(),
{
    if digits.len() == 0 {
        0
    } else {
        10 * number_of(digits.drop_last()) + (digits.last() as int - '0' as int)
    }
}

/// A written number is made of decimal digits, without a zero in front, and reads as the
/// number again.
pub proof fn law_written_numbers_read_back(number: nat)
    ensures
        decimal(number).len() > 0,
        forall|i: int| 0 <= i < decimal(number).len() ==> '0' <= #[trigger] decimal(number)[i] <= '9',
        number > 0 ==> decimal(number)[0] != '0',
        number == 0 ==> decimal(number) == seq!['0'],
        number_of(decimal(number)) == number,
    decreases number,
{
    let text = decimal(number);
    if number < 10 {
        assert(text.drop_last() =~= Seq::<char>::empty());
        assert(number_of(text.drop_last()) == 0);
    } else {
        law_written_numbers_read_back(number / 10);
        assert(text.drop_last() =~= decimal(number / 10));
        assert(text[0] == decimal(number / 10)[0]);
    }
}

/// Without a mark nothing is taken away, neither pairs of it nor the mark itself.
pub proof fn lemma_nothing_to_take_away(text: Seq<char>, mark: char)
    requires
        lacks(text, mark),
    ensures
        without_pairs(text, mark) == text,
        without_char(text, mark) == text,
{
    law_pairs_are_taken_away(text, Seq::<char>::empty(), mark);
    law_marks_are_taken_away(text, mark, mark);
}

} // verus!
