//! Matching a copied snippet against normalized text.
//!
//! A snippet comes from a terminal, so it may carry a bullet of the transcript view,
//! surrounding quotes or other line breaks than the text that it was copied from. Each
//! way to read it gives a candidate; the first candidate with one match decides.
use crate::normalized;
use crate::normalized::NormalizedText;
use crate::strings;
use crate::strings::{find_from, is_blank, reader_lines, same_text, trim, trim_start};
use crate::text;
use crate::text::{byte_count, to_chars, to_text};
use vstd::prelude::*;
use vstd::string::*;

verus! {

/// Why a snippet could not be made a branch point.
#[derive(Clone, Copy, Debug, PartialEq, Eq, Structural)]
pub enum BranchSnippetError {
    /// The snippet holds nothing but whitespace.
    EmptySnippet,
    /// There is no assistant response to search.
    NoAssistantResponse,
    /// No assistant response holds the snippet.
    NoMatch,
    /// The snippet matches more than once.
    AmbiguousMatch,
    /// The match has no source that an anchor could point into.
    NoAnchor,
}

// ---------------------------------------------------------------------------
// Reading a snippet
// ---------------------------------------------------------------------------
/// A line without its leading spaces and tabs.
pub open spec fn unindented(line: Seq<char>) -> Seq<char>
    decreases line.len(),
{
    if line.len() > 0 && (line[0] == ' ' || line[0] == '\t') {
        unindented(line.skip(1))
    } else {
        line
    }
}

/// A line without the bullet that the transcript view puts before a reply.
pub open spec fn without_bullet(line: Seq<char>) -> Seq<char> {
    let rest = unindented(line);
    if rest.len() > 0 && rest[0] == '\u{2022}' {
        strings::trimmed_start(rest.skip(1))
    } else {
        line
    }
}

/// The quote that closes what another one opens.
pub open spec fn closing_quote(open: char) -> Option<char> {
    if open == '"' {
        Some('"')
    } else if open == '\'' {
        Some('\'')
    } else if open == '\u{201C}' {
        Some('\u{201D}')
    } else if open == '\u{2018}' {
        Some('\u{2019}')
    } else {
        None
    }
}

/// The text between the quotes around a snippet, where it is quoted and holds more
/// than whitespace there.
pub open spec fn unquoted(snippet: Seq<char>) -> Option<Seq<char>> {
    let rest = strings::trimmed(snippet);
    let inner = rest.subrange(1, rest.len() - 1);
    if rest.len() >= 2 && closing_quote(rest[0]) == Some(rest.last()) && !strings::blank(inner) {
        Some(strings::trimmed(inner))
    } else {
        None
    }
}

/// The lines of a snippet without transcript bullets.
pub open spec fn bullet_free_lines(snippet: Seq<char>) -> Seq<Seq<char>> {
    strings::text_lines(snippet).map_values(|line: Seq<char>| without_bullet(line))
}

/// The same lines, each trimmed.
pub open spec fn trimmed_bullet_free_lines(snippet: Seq<char>) -> Seq<Seq<char>> {
    strings::text_lines(snippet).map_values(|line: Seq<char>| strings::trimmed(without_bullet(line)))
}

/// A list of candidates with one more, unless it is there already.
pub open spec fn with_candidate(candidates: Seq<Seq<char>>, candidate: Seq<char>) -> Seq<
    Seq<char>,
> {
    if candidates.contains(candidate) {
        candidates
    } else {
        candidates.push(candidate)
    }
}

/// The candidates of a text: as it is, without bullets, and without bullets and
/// indentation.
pub open spec fn with_readings(candidates: Seq<Seq<char>>, snippet: Seq<char>) -> Seq<Seq<char>> {
    with_candidate(
        with_candidate(
            with_candidate(candidates, normalized::normal_text(seq![snippet])),
            normalized::normal_text(bullet_free_lines(snippet)),
        ),
        normalized::normal_text(trimmed_bullet_free_lines(snippet)),
    )
}

/// All candidates of a snippet, in the order in which they are tried.
pub open spec fn candidates_of(snippet: Seq<char>) -> Seq<Seq<char>> {
    let plain = with_readings(Seq::<Seq<char>>::empty(), snippet);
    match unquoted(snippet) {
        Some(inner) => with_readings(plain, inner),
        None => plain,
    }
}

/// The texts of normalized candidates.
pub open spec fn candidate_texts(candidates: Seq<NormalizedText>) -> Seq<Seq<char>> {
    Seq::new(candidates.len(), |i: int| candidates[i].text@)
}

/// Lists of lines with one more, unless one with the same normalized text is there already.
pub open spec fn with_lines(kept: Seq<Seq<Seq<char>>>, lines: Seq<Seq<char>>) -> Seq<
    Seq<Seq<char>>,
> {
    if normal_texts(kept).contains(normalized::normal_text(lines)) {
        kept
    } else {
        kept.push(lines)
    }
}

/// The normalized texts of lists of lines.
pub open spec fn normal_texts(kept: Seq<Seq<Seq<char>>>) -> Seq<Seq<char>> {
    kept.map_values(|lines: Seq<Seq<char>>| normalized::normal_text(lines))
}

/// The lines of the candidates of a text.
pub open spec fn with_reading_lines(kept: Seq<Seq<Seq<char>>>, snippet: Seq<char>) -> Seq<
    Seq<Seq<char>>,
> {
    with_lines(
        with_lines(with_lines(kept, seq![snippet]), bullet_free_lines(snippet)),
        trimmed_bullet_free_lines(snippet),
    )
}

/// The lines that each candidate of a snippet was made of.
pub open spec fn candidate_lines_of(snippet: Seq<char>) -> Seq<Seq<Seq<char>>> {
    let plain = with_reading_lines(Seq::<Seq<Seq<char>>>::empty(), snippet);
    match unquoted(snippet) {
        Some(inner) => with_reading_lines(plain, inner),
        None => plain,
    }
}

/// Whether candidates are the normalized forms of lists of lines.
pub open spec fn are_normalized(
    candidates: Seq<NormalizedText>,
    kept: Seq<Seq<Seq<char>>>,
) -> bool {
    &&& candidates.len() == kept.len()
    &&& forall|i: int|
        0 <= i < kept.len() ==> {
            &&& (#[trigger] candidates[i]).text@ == normalized::normal_text(kept[i])
            &&& normalized::maps_to(candidates[i].mapping@, normalized::normal_marks(kept[i]))
        }
}

/// A line without the bullet that the transcript view puts before a reply.
pub fn strip_main_view_assistant_chrome(line: &str) -> (rest: String)
    ensures
        rest@ == without_bullet(line@),
{
    let chars = to_chars(line);
    let mut index: usize = 0;
    assert(chars@.skip(0) =~= chars@);
    while index < chars.len() && (chars[index] == ' ' || chars[index] == '\t')
        invariant
            index <= chars@.len(),
            unindented(chars@) == unindented(chars@.skip(index as int)),
        decreases chars@.len() - index,
    {
        assert(chars@.skip(index as int)[0] == chars@[index as int]);
        assert(chars@.skip(index as int).skip(1) =~= chars@.skip(index as int + 1));
        index = index + 1;
    }
    let ghost rest = chars@.skip(index as int);
    assert(index < chars@.len() ==> rest[0] == chars@[index as int]);
    assert(unindented(chars@) == rest);
    if index < chars.len() && chars[index] == '\u{2022}' {
        let tail = to_text(&chars, index + 1, chars.len());
        assert(tail@ =~= rest.skip(1));
        trim_start(tail.as_str())
    } else {
        line.to_owned()
    }
}

/// The text between the quotes around a snippet.
pub fn strip_surrounding_quotes(snippet: &str) -> (inner: Option<String>)
    ensures
        strings::opt_text(inner) == unquoted(snippet@),
{
    let rest = trim(snippet);
    let chars = to_chars(rest.as_str());
    let count: usize = chars.len();
    if count < 2 {
        return None;
    }
    let open: char = chars[0];
    let close: char = chars[count - 1];
    let quoted = (open == '"' && close == '"') || (open == '\'' && close == '\'') || (open
        == '\u{201C}' && close == '\u{201D}') || (open == '\u{2018}' && close == '\u{2019}');
    if !quoted {
        return None;
    }
    let inner = to_text(&chars, 1, count - 1);
    if is_blank(inner.as_str()) {
        None
    } else {
        Some(trim(inner.as_str()))
    }
}

/// Adds the normalized form of some lines to the candidates, unless one with the same
/// text is there already.
pub fn push_normalized_candidate(candidates: &mut Vec<NormalizedText>, lines: &[String])
    ensures
        candidate_texts(final(candidates)@) == with_candidate(
            candidate_texts(old(candidates)@),
            normalized::normal_text(strings::texts(lines@)),
        ),
        forall|kept: Seq<Seq<Seq<char>>>| #[trigger]
            are_normalized(old(candidates)@, kept) ==> are_normalized(
                final(candidates)@,
                with_lines(kept, strings::texts(lines@)),
            ),
{
    let candidate = NormalizedText::new(lines);
    let ghost before = candidate_texts(candidates@);
    proof {
        assert forall|kept: Seq<Seq<Seq<char>>>| #[trigger]
            are_normalized(candidates@, kept) implies normal_texts(kept) == before by {
            assert forall|i: int| 0 <= i < kept.len() implies normal_texts(kept)[i]
                == before[i] by {
                assert(candidates@[i].text@ == normalized::normal_text(kept[i]));
            }
            assert(normal_texts(kept) =~= before);
        }
    }
    let mut index: usize = 0;
    while index < candidates.len()
        invariant
            index <= candidates@.len(),
            *candidates == *old(candidates),
            before == candidate_texts(candidates@),
            forall|kept: Seq<Seq<Seq<char>>>| #[trigger]
                are_normalized(candidates@, kept) ==> normal_texts(kept) == before,
            normalized::maps_to(
                candidate.mapping@,
                normalized::normal_marks(strings::texts(lines@)),
            ),
            candidate.text@ == normalized::normal_text(strings::texts(lines@)),
            forall|i: int| 0 <= i < index ==> before[i] != candidate.text@,
        decreases candidates@.len() - index,
    {
        if same_text(candidates[index].text.as_str(), candidate.text.as_str()) {
            assert(before[index as int] == candidate.text@);
            return ;
        }
        index = index + 1;
    }
    assert(!before.contains(candidate.text@));
    candidates.push(candidate);
    assert(candidate_texts(candidates@) =~= before.push(candidate.text@));
}

/// The lines of a snippet without transcript bullets.
fn bullet_free(snippet: &str) -> (lines: Vec<String>)
    ensures
        strings::texts(lines@) == bullet_free_lines(snippet@),
{
    let parts = reader_lines(snippet);
    let ghost all = bullet_free_lines(snippet@);
    let mut lines: Vec<String> = Vec::new();
    let mut index: usize = 0;
    assert(strings::texts(parts@).len() == parts@.len());
    while index < parts.len()
        invariant
            index <= parts@.len(),
            strings::texts(parts@) == strings::text_lines(snippet@),
            all == bullet_free_lines(snippet@),
            all.len() == parts@.len(),
            strings::texts(lines@) =~= all.take(index as int),
        decreases parts@.len() - index,
    {
        let ghost before = strings::texts(lines@);
        lines.push(strip_main_view_assistant_chrome(parts[index].as_str()));
        assert(strings::texts(parts@)[index as int] == parts@[index as int]@);
        assert(strings::texts(lines@) =~= before.push(all[index as int]));
        index = index + 1;
    }
    assert(strings::texts(lines@) =~= all);
    lines
}

/// The lines of a snippet without transcript bullets, each trimmed.
fn trimmed_bullet_free(snippet: &str) -> (lines: Vec<String>)
    ensures
        strings::texts(lines@) == trimmed_bullet_free_lines(snippet@),
{
    let parts = reader_lines(snippet);
    let ghost all = trimmed_bullet_free_lines(snippet@);
    let mut lines: Vec<String> = Vec::new();
    let mut index: usize = 0;
    assert(strings::texts(parts@).len() == parts@.len());
    while index < parts.len()
        invariant
            index <= parts@.len(),
            strings::texts(parts@) == strings::text_lines(snippet@),
            all == trimmed_bullet_free_lines(snippet@),
            all.len() == parts@.len(),
            strings::texts(lines@) =~= all.take(index as int),
        decreases parts@.len() - index,
    {
        let ghost before = strings::texts(lines@);
        let line = strip_main_view_assistant_chrome(parts[index].as_str());
        lines.push(trim(line.as_str()));
        assert(strings::texts(parts@)[index as int] == parts@[index as int]@);
        assert(strings::texts(lines@) =~= before.push(all[index as int]));
        index = index + 1;
    }
    assert(strings::texts(lines@) =~= all);
    lines
}

/// Adds the candidates of a text.
fn push_readings(candidates: &mut Vec<NormalizedText>, snippet: &str)
    ensures
        candidate_texts(final(candidates)@) == with_readings(
            candidate_texts(old(candidates)@),
            snippet@,
        ),
        forall|kept: Seq<Seq<Seq<char>>>| #[trigger]
            are_normalized(old(candidates)@, kept) ==> are_normalized(
                final(candidates)@,
                with_reading_lines(kept, snippet@),
            ),
{
    let mut whole: Vec<String> = Vec::new();
    whole.push(snippet.to_owned());
    assert(strings::texts(whole@) =~= seq![snippet@]);
    push_normalized_candidate(candidates, &whole);
    push_normalized_candidate(candidates, &bullet_free(snippet));
    push_normalized_candidate(candidates, &trimmed_bullet_free(snippet));
}

/// All candidates of a snippet, in the order in which they are tried.
pub fn normalized_snippet_candidates(snippet: &str) -> (candidates: Vec<NormalizedText>)
    ensures
        candidate_texts(candidates@) == candidates_of(snippet@),
        are_normalized(candidates@, candidate_lines_of(snippet@)),
{
    let mut variants: Vec<NormalizedText> = Vec::new();
    assert(candidate_texts(variants@) =~= Seq::<Seq<char>>::empty());
    assert(are_normalized(variants@, Seq::<Seq<Seq<char>>>::empty()));
    push_readings(&mut variants, snippet);
    if let Some(unquoted_text) = strip_surrounding_quotes(snippet) {
        push_readings(&mut variants, unquoted_text.as_str());
    }
    variants
}

// ---------------------------------------------------------------------------
// Finding a candidate
// ---------------------------------------------------------------------------
/// The first match of a candidate, as the indices of its first character and of the
/// character after it, where no further match starts behind it.
pub open spec fn single_match(source: Seq<char>, snippet: Seq<char>) -> Result<
    (int, int),
    BranchSnippetError,
> {
    match strings::occurrence_from(source, snippet, 0) {
        None => Err(BranchSnippetError::NoMatch),
        Some(start) => {
            let end = start + snippet.len();
            if strings::occurrence_from(source, snippet, end) is Some {
                Err(BranchSnippetError::AmbiguousMatch)
            } else {
                Ok((start, end))
            }
        },
    }
}

/// The match of the first candidate that has a single one. Without such a candidate the
/// snippet is ambiguous if any candidate is, and absent otherwise.
pub open spec fn first_single_match(source: Seq<char>, candidates: Seq<Seq<char>>) -> Result<
    (int, int),
    BranchSnippetError,
>
    decreases candidates.len(),
{
    if candidates.len() == 0 {
        Err(BranchSnippetError::NoMatch)
    } else {
        match first_single_match(source, candidates.drop_last()) {
            Ok(found) => Ok(found),
            Err(error) => match single_match(source, candidates.last()) {
                Ok(found) => Ok(found),
                Err(BranchSnippetError::NoMatch) => Err(error),
                Err(other) => Err(other),
            },
        }
    }
}

/// Whether a byte range is that of a match in characters.
pub open spec fn byte_range_of(
    source: Seq<char>,
    range: std::ops::Range<usize>,
    found: (int, int),
) -> bool {
    &&& range.start == text::byte_pos(source, found.0)
    &&& range.end == text::byte_pos(source, found.1)
}

/// The byte range of the single match of a snippet.
pub fn find_unique_match(source: &str, snippet: &str) -> (found: Result<
    std::ops::Range<usize>,
    BranchSnippetError,
>)
    ensures
        match (found, single_match(source@, snippet@)) {
            (Ok(range), Ok(single)) => byte_range_of(source@, range, single),
            (Err(error), Err(expected)) => error == expected,
            _ => false,
        },
{
    let chars = to_chars(source);
    let needle = to_chars(snippet);
    let total: usize = byte_count(source);
    proof {
        strings::law_occurrence_is_the_first(source@, snippet@, 0);
    }
    let start: usize = match find_from(&chars, &needle, 0) {
        None => return Err(BranchSnippetError::NoMatch),
        Some(start) => start,
    };
    assert(start + needle@.len() <= chars.len());
    let end: usize = start + needle.len();
    if find_from(&chars, &needle, end).is_some() {
        return Err(BranchSnippetError::AmbiguousMatch);
    }
    proof {
        text::lemma_byte_pos_grows(source@, start as int, end as int);
    }
    let start_byte: usize = byte_offset_of(&chars, total, start);
    let end_byte: usize = byte_offset_of(&chars, total, end);
    Ok(start_byte..end_byte)
}

/// The byte offset of a character.
fn byte_offset_of(chars: &[char], total: usize, index: usize) -> (offset: usize)
    requires
        total == text::byte_len(chars@),
        index <= chars@.len(),
    ensures
        offset == text::byte_pos(chars@, index as int),
{
    let mut offset: usize = 0;
    let mut at: usize = 0;
    proof {
        text::lemma_byte_pos_ends(chars@);
    }
    while at < index
        invariant
            at <= index <= chars@.len(),
            total == text::byte_len(chars@),
            offset == text::byte_pos(chars@, at as int),
        decreases index - at,
    {
        proof {
            text::lemma_byte_pos_step(chars@, at as int);
            text::lemma_byte_pos_grows(chars@, at as int + 1, chars@.len() as int);
        }
        offset = offset + text::width_of(chars[at]);
        at = at + 1;
    }
    offset
}

/// The byte range of the match of the first candidate that has a single one.
pub fn find_branch_snippet_match(source: &str, snippets: &[NormalizedText]) -> (found: Result<
    std::ops::Range<usize>,
    BranchSnippetError,
>)
    ensures
        match (found, first_single_match(source@, candidate_texts(snippets@))) {
            (Ok(range), Ok(single)) => byte_range_of(source@, range, single),
            (Err(error), Err(expected)) => error == expected,
            _ => false,
        },
{
    let ghost all = candidate_texts(snippets@);
    let mut last_error = BranchSnippetError::NoMatch;
    let mut index: usize = 0;
    assert(all.take(0) =~= Seq::<Seq<char>>::empty());
    while index < snippets.len()
        invariant
            index <= snippets@.len(),
            all == candidate_texts(snippets@),
            first_single_match(source@, all.take(index as int)) == Err::<
                (int, int),
                BranchSnippetError,
            >(last_error),
        decreases snippets@.len() - index,
    {
        assert(all.take(index as int + 1).drop_last() =~= all.take(index as int));
        assert(all.take(index as int + 1).last() == snippets@[index as int].text@);
        match find_unique_match(source, snippets[index].text.as_str()) {
            Ok(range) => {
                proof {
                    lemma_first_match_stays(source@, all, index as int + 1);
                }
                return Ok(range);
            },
            Err(BranchSnippetError::NoMatch) => {},
            Err(error) => {
                last_error = error;
            },
        }
        index = index + 1;
    }
    assert(all.take(snippets@.len() as int) =~= all);
    Err(last_error)
}

/// A match of some candidates stays the match when more candidates follow.
proof fn lemma_first_match_stays(source: Seq<char>, candidates: Seq<Seq<char>>, count: int)
    requires
        0 <= count <= candidates.len(),
        first_single_match(source, candidates.take(count)) is Ok,
    ensures
        first_single_match(source, candidates) == first_single_match(
            source,
            candidates.take(count),
        ),
    decreases candidates.len(),
{
    if count == candidates.len() {
        assert(candidates.take(count) =~= candidates);
    } else {
        assert(candidates.drop_last().take(count) =~= candidates.take(count));
        lemma_first_match_stays(source, candidates.drop_last(), count);
    }
}

/// No candidate of a snippet is tried twice.
pub proof fn law_candidates_are_different(snippet: Seq<char>)
    ensures
        candidates_of(snippet).no_duplicates(),
{
    let nothing = Seq::<Seq<char>>::empty();
    lemma_readings_are_different(nothing, snippet);
    if let Some(inner) = unquoted(snippet) {
        lemma_readings_are_different(with_readings(nothing, snippet), inner);
    }
}

proof fn lemma_readings_are_different(candidates: Seq<Seq<char>>, snippet: Seq<char>)
    requires
        candidates.no_duplicates(),
    ensures
        with_readings(candidates, snippet).no_duplicates(),
{
}

/// A snippet with a single match stands at that match, nowhere before it, and nowhere
/// behind its end.
pub proof fn law_single_match_is_the_only_one(source: Seq<char>, snippet: Seq<char>)
    ensures
        match single_match(source, snippet) {
            Ok((start, end)) => {
                &&& end == start + snippet.len()
                &&& strings::occurs_at(source, snippet, start)
                &&& forall|other: int|
                    0 <= other < start || end <= other ==> !#[trigger] strings::occurs_at(
                        source,
                        snippet,
                        other,
                    )
            },
            Err(BranchSnippetError::NoMatch) => forall|other: int|
                0 <= other ==> !#[trigger] strings::occurs_at(source, snippet, other),
            Err(_) => exists|first: int, second: int|
                0 <= first && first + snippet.len() <= second && #[trigger] strings::occurs_at(
                    source,
                    snippet,
                    first,
                ) && #[trigger] strings::occurs_at(source, snippet, second),
        },
{
    strings::law_occurrence_is_the_first(source, snippet, 0);
    if let Some(start) = strings::occurrence_from(source, snippet, 0) {
        let end = start + snippet.len();
        strings::law_occurrence_is_the_first(source, snippet, end);
        if let Some(second) = strings::occurrence_from(source, snippet, end) {
            assert(strings::occurs_at(source, snippet, start));
            assert(strings::occurs_at(source, snippet, second));
        }
    }
}

// ---------------------------------------------------------------------------
// How a snippet is read
// ---------------------------------------------------------------------------
proof fn lemma_unindents(indent: Seq<char>, line: Seq<char>)
    requires
        forall|i: int| 0 <= i < indent.len() ==> #[trigger] indent[i] == ' ' || indent[i] == '\t',
        line.len() == 0 || (line[0] != ' ' && line[0] != '\t'),
    ensures
        unindented(indent + line) == line,
    decreases indent.len(),
{
    if indent.len() > 0 {
        assert((indent + line)[0] == indent[0]);
        assert((indent + line).skip(1) =~= indent.skip(1) + line);
        lemma_unindents(indent.skip(1), line);
    } else {
        assert(indent + line =~= line);
    }
}

/// A bullet is taken away, together with the spaces and tabs before it and the whitespace
/// behind it. A line that starts with anything else stays as it is.
pub proof fn law_leading_bullets_are_dropped(indent: Seq<char>, first: char, rest: Seq<char>)
    requires
        forall|i: int| 0 <= i < indent.len() ==> #[trigger] indent[i] == ' ' || indent[i] == '\t',
        first != ' ',
        first != '\t',
    ensures
        first == '•' ==> without_bullet(indent + seq![first] + rest) == strings::trimmed_start(rest),
        first != '•' ==> without_bullet(indent + seq![first] + rest) == indent + seq![first] + rest,
        without_bullet(indent) == indent,
{
    let line = seq![first] + rest;
    assert(indent + seq![first] + rest =~= indent + line);
    lemma_unindents(indent, line);
    assert(line.skip(1) =~= rest);
    lemma_unindents(indent, Seq::<char>::empty());
    assert(indent + Seq::<char>::empty() =~= indent);
}

/// Quotes around a snippet are taken away with the whitespace on either side of them, where
/// they fit together and hold more than whitespace: straight double or single quotes, or an
/// opening and a closing curly one of the same kind.
pub proof fn law_surrounding_quotes_are_dropped(
    before: Seq<char>,
    open: char,
    inner: Seq<char>,
    close: char,
    after: Seq<char>,
)
    requires
        strings::blank(before),
        strings::blank(after),
        !strings::whitespace(open),
        !strings::whitespace(close),
    ensures
        ({
            let fits = (open == '"' && close == '"') || (open == '\'' && close == '\'') || (open
                == '“' && close == '”') || (open == '‘' && close == '’');
            let quoted = before + (seq![open] + inner).push(close) + after;
            &&& fits && !strings::blank(inner) ==> unquoted(quoted) == Some(strings::trimmed(inner))
            &&& !fits || strings::blank(inner) ==> unquoted(quoted) is None
        }),
{
    let middle = (seq![open] + inner).push(close);
    strings::law_trimming_leaves_the_visible_middle(before, middle, after);
    assert(middle.subrange(1, middle.len() - 1) =~= inner);
}

/// The ways in which a snippet is read: as it stands, without the bullets of its lines, and
/// without the bullets and the whitespace around its lines.
pub open spec fn readings(snippet: Seq<char>) -> Seq<Seq<char>> {
    let lines = strings::text_lines(snippet);
    seq![
        normalized::normal_text(seq![snippet]),
        normalized::normal_text(Seq::new(lines.len(), |i: int| without_bullet(lines[i]))),
        normalized::normal_text(
            Seq::new(lines.len(), |i: int| strings::trimmed(without_bullet(lines[i]))),
        ),
    ]
}

/// The candidates of a snippet are its readings and, where it is quoted, those of what the
/// quotes hold. Nothing else is a candidate. The snippet as it stands is the first, and none
/// of its own readings comes behind one of what the quotes hold.
pub proof fn law_candidates_are_the_readings(snippet: Seq<char>, candidate: Seq<char>)
    ensures
        ({
            let all = candidates_of(snippet);
            let own = readings(snippet);
            &&& all.len() > 0
            &&& all[0] == own[0]
            &&& match unquoted(snippet) {
                None => all.contains(candidate) <==> own.contains(candidate),
                Some(inner) => all.contains(candidate) <==> own.contains(candidate) || readings(
                    inner,
                ).contains(candidate),
            }
            &&& forall|i: int, j: int|
                #![trigger all[i], all[j]]
                0 <= i < j < all.len() && own.contains(all[j]) ==> own.contains(all[i])
        }),
{
    let empty = Seq::<Seq<char>>::empty();
    let kept = with_readings(empty, snippet);
    let own = readings(snippet);
    let all = candidates_of(snippet);
    lemma_readings_are_added(empty, snippet);
    assert forall|i: int| 0 <= i < kept.len() implies own.contains(#[trigger] kept[i]) by {
        assert(kept.contains(kept[i]));
    }
    if let Some(inner) = unquoted(snippet) {
        lemma_readings_are_added(kept, inner);
        law_candidates_are_different(snippet);
        assert forall|i: int, j: int|
            #![trigger all[i], all[j]]
            0 <= i < j < all.len() && own.contains(all[j]) implies own.contains(all[i]) by {
            assert(kept.contains(all[j]));
            let k = choose|k: int| 0 <= k < kept.len() && kept[k] == all[j];
            assert(all[k] == kept[k]);
            assert(k == j);
            assert(kept[i] == all[i]);
        }
    }
}

proof fn lemma_candidate_is_added(candidates: Seq<Seq<char>>, candidate: Seq<char>)
    ensures
        candidates.is_prefix_of(with_candidate(candidates, candidate)),
        with_candidate(candidates, candidate).contains(candidate),
        forall|other: Seq<char>| #[trigger]
            with_candidate(candidates, candidate).contains(other) <==> candidates.contains(other)
                || other == candidate,
{
    let added = with_candidate(candidates, candidate);
    if !candidates.contains(candidate) {
        assert(added.last() == candidate);
        assert forall|other: Seq<char>| #[trigger] added.contains(other) <==> candidates.contains(
            other,
        ) || other == candidate by {
            if candidates.contains(other) {
                let i = choose|i: int| 0 <= i < candidates.len() && candidates[i] == other;
                assert(added[i] == other);
            }
            if added.contains(other) {
                let i = choose|i: int| 0 <= i < added.len() && added[i] == other;
                if i < candidates.len() {
                    assert(candidates[i] == other);
                }
            }
        }
    }
}

proof fn lemma_readings_are_added(candidates: Seq<Seq<char>>, snippet: Seq<char>)
    ensures
        candidates.is_prefix_of(with_readings(candidates, snippet)),
        candidates.len() == 0 ==> with_readings(candidates, snippet).len() > 0 && with_readings(
            candidates,
            snippet,
        )[0] == readings(snippet)[0],
        forall|other: Seq<char>| #[trigger]
            with_readings(candidates, snippet).contains(other) <==> candidates.contains(other)
                || readings(snippet).contains(other),
{
    let lines = strings::text_lines(snippet);
    let own = readings(snippet);
    assert(bullet_free_lines(snippet) =~= Seq::new(lines.len(), |i: int| without_bullet(lines[i])));
    assert(trimmed_bullet_free_lines(snippet) =~= Seq::new(
        lines.len(),
        |i: int| strings::trimmed(without_bullet(lines[i])),
    ));
    let one = with_candidate(candidates, own[0]);
    let two = with_candidate(one, own[1]);
    let all = with_readings(candidates, snippet);
    assert(all == with_candidate(two, own[2]));
    lemma_candidate_is_added(candidates, own[0]);
    lemma_candidate_is_added(one, own[1]);
    lemma_candidate_is_added(two, own[2]);
    assert(all.take(two.len() as int) =~= two);
    assert(two.take(one.len() as int) =~= one);
    if candidates.len() == 0 {
        assert(one[0] == own[0]);
        assert(two[0] == one[0]);
        assert(all[0] == two[0]);
    }
    assert forall|other: Seq<char>| #[trigger] all.contains(other) <==> candidates.contains(other)
        || own.contains(other) by {
        assert(two.contains(other) <==> one.contains(other) || other == own[1]);
        assert(one.contains(other) <==> candidates.contains(other) || other == own[0]);
        if own.contains(other) {
            let i = choose|i: int| 0 <= i < own.len() && own[i] == other;
            assert(i == 0 || i == 1 || i == 2);
        }
    }
}

/// The first reading that matches exactly once decides. Without one the match is ambiguous
/// where some reading matches more than once, and there is none where no reading matches.
pub proof fn law_first_single_reading_decides(
    source: Seq<char>,
    candidates: Seq<Seq<char>>,
    i: int,
)
    requires
        0 <= i < candidates.len(),
    ensures
        single_match(source, candidates[i]) is Ok && (forall|j: int|
            0 <= j < i ==> single_match(source, #[trigger] candidates[j]) is Err)
            ==> first_single_match(source, candidates) == single_match(source, candidates[i]),
        first_single_match(source, candidates) is Err ==> single_match(source, candidates[i]) is Err,
        first_single_match(source, candidates) == Err::<(int, int), BranchSnippetError>(
            BranchSnippetError::NoMatch,
        ) ==> single_match(source, candidates[i]) == Err::<(int, int), BranchSnippetError>(
            BranchSnippetError::NoMatch,
        ),
        first_single_match(source, candidates) == Err::<(int, int), BranchSnippetError>(
            BranchSnippetError::AmbiguousMatch,
        ) ==> exists|j: int|
            0 <= j < candidates.len() && single_match(source, #[trigger] candidates[j]) == Err::<
                (int, int),
                BranchSnippetError,
            >(BranchSnippetError::AmbiguousMatch),
    decreases candidates.len(),
{
    let head = candidates.drop_last();
    if i < head.len() {
        law_first_single_reading_decides(source, head, i);
        assert(head[i] == candidates[i]);
        assert forall|j: int| 0 <= j < head.len() implies head[j] == candidates[j] by {}
    } else if head.len() > 0 {
        law_first_single_reading_decides(source, head, 0);
        if first_single_match(source, head) is Ok {
            lemma_some_reading_decides(source, head);
            let j = choose|j: int|
                0 <= j < head.len() && single_match(source, #[trigger] head[j]) is Ok;
            assert(head[j] == candidates[j]);
        }
    }
    if first_single_match(source, candidates) == Err::<(int, int), BranchSnippetError>(
        BranchSnippetError::AmbiguousMatch,
    ) {
        if first_single_match(source, head) == Err::<(int, int), BranchSnippetError>(
            BranchSnippetError::AmbiguousMatch,
        ) {
            assert(head.len() > 0);
            let j = choose|j: int|
                0 <= j < head.len() && single_match(source, #[trigger] head[j]) == Err::<
                    (int, int),
                    BranchSnippetError,
                >(BranchSnippetError::AmbiguousMatch);
            assert(candidates[j] == head[j]);
        } else {
            assert(candidates[candidates.len() - 1] == candidates.last());
        }
    }
}

proof fn lemma_some_reading_decides(source: Seq<char>, candidates: Seq<Seq<char>>)
    requires
        first_single_match(source, candidates) is Ok,
    ensures
        exists|j: int|
            0 <= j < candidates.len() && single_match(source, #[trigger] candidates[j]) is Ok,
    decreases candidates.len(),
{
    let head = candidates.drop_last();
    if first_single_match(source, head) is Ok {
        lemma_some_reading_decides(source, head);
        let j = choose|j: int|
            0 <= j < head.len() && single_match(source, #[trigger] head[j]) is Ok;
        assert(candidates[j] == head[j]);
    } else {
        assert(candidates[candidates.len() - 1] == candidates.last());
    }
}

/// A match is told in bytes: it starts behind the text before it and is as long as what was
/// looked for.
pub proof fn law_matches_are_told_in_bytes(
    source: Seq<char>,
    snippet: Seq<char>,
    range: std::ops::Range<usize>,
)
    requires
        single_match(source, snippet) is Ok,
        byte_range_of(source, range, single_match(source, snippet)->Ok_0),
    ensures
        ({
            let start = single_match(source, snippet)->Ok_0.0;
            &&& range.start == text::byte_len(source.take(start))
            &&& range.end == range.start + text::byte_len(snippet)
        }),
{
    law_single_match_is_the_only_one(source, snippet);
    let (start, end) = single_match(source, snippet)->Ok_0;
    assert(source.take(end) =~= source.take(start) + snippet) by {
        assert(source.subrange(start, end) == snippet);
        assert(source.take(end) =~= source.take(start) + source.subrange(start, end));
    }
    text::lemma_byte_len_add(source.take(start), snippet);
}

} // verus!
