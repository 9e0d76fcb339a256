//! The assistant responses of a conversation, gathered from its stored turns or from the
//! cells of the transcript.
use crate::history_cell;
use crate::history_cell::{source_lines_plain_text, AgentMessageCell, HistoryCell};
use crate::protocol;
use crate::protocol::{ThreadItem, Turn};
use crate::strings;
use crate::strings::{
    copy_optional, copy_strings, is_blank, remove_char, remove_pairs, split_lines,
};
use crate::styled;
use crate::styled::{render_markdown_to_plain_lines, Line};
use vstd::prelude::*;
use vstd::string::*;

verus! {

/// An assistant response that can be searched for a snippet.
#[derive(Clone, Debug, PartialEq, Eq)]
pub struct AssistantResponse {
    pub assistant_message_index: usize,
    pub display_lines: Vec<String>,
    pub source_text: Option<String>,
    pub source_segments: Option<Vec<String>>,
    pub allow_single_segment_fallback: bool,
}

/// What an assistant response holds.
pub struct ResponseView {
    pub index: int,
    pub display_lines: Seq<Seq<char>>,
    pub source_text: Option<Seq<char>>,
    pub source_segments: Option<Seq<Seq<char>>>,
    pub single_segment: bool,
}

impl View for AssistantResponse {
    type V = ResponseView;

    open spec fn view(&self) -> ResponseView {
        ResponseView {
            index: self.assistant_message_index as int,
            display_lines: strings::texts(self.display_lines@),
            source_text: strings::opt_text(self.source_text),
            source_segments: protocol::opt_texts(self.source_segments),
            single_segment: self.allow_single_segment_fallback,
        }
    }
}

/// The views of responses.
pub open spec fn response_views(responses: Seq<AssistantResponse>) -> Seq<ResponseView> {
    Seq::new(responses.len(), |i: int| responses[i]@)
}

// ---------------------------------------------------------------------------
// The text to search
// ---------------------------------------------------------------------------
/// A line of markdown without its emphasis and code marks.
pub open spec fn search_line(line: Seq<char>) -> Seq<char> {
    strings::without_char(strings::without_pairs(strings::without_pairs(line, '*'), '_'), '`')
}

/// The lines of a markdown text without emphasis and code marks.
pub open spec fn search_lines(source: Seq<char>) -> Seq<Seq<char>> {
    strings::split_at_newlines(source).map_values(|line: Seq<char>| search_line(line))
}

/// A text, where there is one and it holds more than whitespace.
pub open spec fn visible_text(text: Option<Seq<char>>) -> Option<Seq<char>> {
    match text {
        Some(text) => if strings::blank(text) {
            None
        } else {
            Some(text)
        },
        None => None,
    }
}

/// The markdown of a response: for the latest one the markdown of the running session,
/// where it is known, and its stored source otherwise.
pub open spec fn raw_markdown(
    response: ResponseView,
    latest: Option<Seq<char>>,
    is_latest: bool,
) -> Option<Seq<char>> {
    if is_latest && visible_text(latest) is Some {
        visible_text(latest)
    } else {
        visible_text(response.source_text)
    }
}

/// The lines of a response to search: those of its markdown, where it is known, and the
/// displayed ones otherwise.
pub open spec fn lines_to_search(
    response: ResponseView,
    latest: Option<Seq<char>>,
    is_latest: bool,
) -> Seq<Seq<char>> {
    match raw_markdown(response, latest, is_latest) {
        Some(source) => search_lines(source),
        None => response.display_lines,
    }
}

/// A line of markdown without its emphasis and code marks.
pub fn normalize_search_source_line(line: &str) -> (rest: String)
    ensures
        rest@ == search_line(line@),
{
    let rest = remove_pairs(line, '*');
    let rest = remove_pairs(rest.as_str(), '_');
    remove_char(rest.as_str(), '`')
}

/// The lines of a markdown text without emphasis and code marks.
pub fn source_search_lines_from_source_text(text: &str) -> (lines: Vec<String>)
    ensures
        strings::texts(lines@) == search_lines(text@),
        lines@.len() > 0,
{
    let parts = split_lines(text);
    let ghost all = search_lines(text@);
    let mut lines: Vec<String> = Vec::new();
    let mut index: usize = 0;
    proof {
        strings::law_lines_join_to_the_text(text@);
        assert(strings::texts(parts@).len() == parts@.len());
    }
    while index < parts.len()
        invariant
            index <= parts@.len(),
            strings::texts(parts@) == strings::split_at_newlines(text@),
            all == search_lines(text@),
            all.len() == parts@.len(),
            strings::texts(lines@) =~= all.take(index as int),
        decreases parts@.len() - index,
    {
        let ghost before = strings::texts(lines@);
        lines.push(normalize_search_source_line(parts[index].as_str()));
        assert(strings::texts(parts@)[index as int] == parts@[index as int]@);
        assert(strings::texts(lines@) =~= before.push(all[index as int]));
        index = index + 1;
    }
    assert(strings::texts(lines@) =~= all);
    assert(strings::texts(lines@).len() == lines@.len());
    lines
}

/// A text, where there is one and it holds more than whitespace.
pub fn visible_str(text: Option<&str>) -> (visible: Option<&str>)
    ensures
        strings::opt_str(visible) == visible_text(strings::opt_str(text)),
{
    match text {
        Some(text) => if is_blank(text) {
            None
        } else {
            Some(text)
        },
        None => None,
    }
}

/// An optional string as a slice.
fn as_str_option(text: &Option<String>) -> (slice: Option<&str>)
    ensures
        strings::opt_str(slice) == strings::opt_text(*text),
{
    match text {
        Some(text) => Some(text.as_str()),
        None => None,
    }
}

impl AssistantResponse {
    /// The lines of this response to search.
    pub fn source_search_lines(
        &self,
        latest_raw_assistant_markdown: Option<&str>,
        is_latest_response: bool,
    ) -> (lines: Vec<String>)
        ensures
            strings::texts(lines@) == lines_to_search(
                self@,
                strings::opt_str(latest_raw_assistant_markdown),
                is_latest_response,
            ),
    {
        match self.raw_markdown_text(latest_raw_assistant_markdown, is_latest_response) {
            Some(source) => source_search_lines_from_source_text(source),
            None => copy_strings(&self.display_lines),
        }
    }

    /// The markdown of this response, where it is known.
    pub fn raw_markdown_text<'a>(
        &'a self,
        latest_raw_assistant_markdown: Option<&'a str>,
        is_latest_response: bool,
    ) -> (text: Option<&'a str>)
        ensures
            strings::opt_str(text) == raw_markdown(
                self@,
                strings::opt_str(latest_raw_assistant_markdown),
                is_latest_response,
            ),
    {
        if is_latest_response {
            if let Some(latest) = visible_str(latest_raw_assistant_markdown) {
                return Some(latest);
            }
        }
        visible_str(as_str_option(&self.source_text))
    }
}

// ---------------------------------------------------------------------------
// Responses of stored turns
// ---------------------------------------------------------------------------
/// The response that an assistant message is.
pub open spec fn message_response(
    message: protocol::AgentMessageView,
    index: int,
    model: spec_fn(Seq<char>) -> Seq<styled::LineView>,
) -> ResponseView {
    let source = match message.source_text {
        Some(source) => source,
        None => message.text,
    };
    ResponseView {
        index,
        display_lines: styled::plain_lines(model(source)),
        source_text: Some(source),
        source_segments: message.source_segments,
        single_segment: false,
    }
}

/// The responses that assistant messages are.
pub open spec fn message_responses(
    messages: Seq<protocol::AgentMessageView>,
    model: spec_fn(Seq<char>) -> Seq<styled::LineView>,
) -> Seq<ResponseView> {
    Seq::new(messages.len(), |i: int| message_response(messages[i], i, model))
}

/// A copy of an optional list of strings.
pub fn copy_optional_strings(strings: &Option<Vec<String>>) -> (copy: Option<Vec<String>>)
    ensures
        protocol::opt_texts(copy) == protocol::opt_texts(*strings),
{
    match strings {
        Some(strings) => Some(copy_strings(strings)),
        None => None,
    }
}

/// The responses of the assistant messages of stored turns, in their order.
pub fn assistant_responses_from_turns<F: Fn(&str) -> Vec<Line>>(
    turns: &[Turn],
    append_markdown: &F,
) -> (responses: Vec<AssistantResponse>)
    requires
        styled::is_renderer(*append_markdown),
    ensures
        forall|model: spec_fn(Seq<char>) -> Seq<styled::LineView>| #[trigger]
            styled::renders_as(*append_markdown, model) ==> response_views(responses@)
                == message_responses(protocol::turn_messages(turns@), model),
{
    let mut responses: Vec<AssistantResponse> = Vec::new();
    let ghost mut messages = Seq::<protocol::AgentMessageView>::empty();
    let mut turn_index: usize = 0;
    assert(turns@.take(0) =~= Seq::<Turn>::empty());
    assert forall|model: spec_fn(Seq<char>) -> Seq<styled::LineView>| #[trigger]
        styled::renders_as(*append_markdown, model) implies response_views(responses@)
        == message_responses(messages, model) by {
        assert(response_views(responses@) =~= message_responses(messages, model));
    }
    while turn_index < turns.len()
        invariant
            turn_index <= turns@.len(),
            styled::is_renderer(*append_markdown),
            messages == protocol::turn_messages(turns@.take(turn_index as int)),
            responses@.len() == messages.len(),
            forall|model: spec_fn(Seq<char>) -> Seq<styled::LineView>| #[trigger]
                styled::renders_as(*append_markdown, model) ==> response_views(responses@)
                    == message_responses(messages, model),
        decreases turns@.len() - turn_index,
    {
        let turn = &turns[turn_index];
        let ghost before = messages;
        let mut item_index: usize = 0;
        assert(turn.items@.take(0) =~= Seq::<ThreadItem>::empty());
        assert(before + protocol::item_messages(turn.items@.take(0)) =~= before);
        while item_index < turn.items.len()
            invariant
                item_index <= turn.items@.len(),
                styled::is_renderer(*append_markdown),
                messages == before + protocol::item_messages(turn.items@.take(item_index as int)),
                responses@.len() == messages.len(),
                forall|model: spec_fn(Seq<char>) -> Seq<styled::LineView>| #[trigger]
                    styled::renders_as(*append_markdown, model) ==> response_views(responses@)
                        == message_responses(messages, model),
            decreases turn.items@.len() - item_index,
        {
            let ghost taken = turn.items@.take(item_index as int + 1);
            assert(taken.drop_last() =~= turn.items@.take(item_index as int));
            assert(taken.last() == turn.items@[item_index as int]);
            if let ThreadItem::AgentMessage { text, source_text, source_segments, .. } =
                &turn.items[item_index] {
                let source = match source_text {
                    Some(source) => source.clone(),
                    None => text.clone(),
                };
                let display_lines = render_markdown_to_plain_lines(
                    source.as_str(),
                    append_markdown,
                );
                let ghost old_views = response_views(responses@);
                let ghost old_messages = messages;
                let response = AssistantResponse {
                    assistant_message_index: responses.len(),
                    display_lines,
                    source_text: Some(source),
                    source_segments: copy_optional_strings(source_segments),
                    allow_single_segment_fallback: false,
                };
                let ghost added = response@;
                responses.push(response);
                proof {
                    let message = protocol::agent_message(turn.items@[item_index as int])->0;
                    messages = messages.push(message);
                    assert(messages =~= before + protocol::item_messages(taken));
                    assert(response_views(responses@) =~= old_views.push(added));
                    assert forall|model: spec_fn(Seq<char>) -> Seq<styled::LineView>| #[trigger]
                        styled::renders_as(*append_markdown, model) implies response_views(
                        responses@,
                    ) == message_responses(messages, model) by {
                        let index = old_messages.len() as int;
                        assert(added == message_response(message, index, model));
                        assert(message_responses(messages, model) =~= message_responses(
                            old_messages,
                            model,
                        ).push(message_response(message, index, model)));
                    }
                }
            }
            item_index = item_index + 1;
        }
        proof {
            let taken = turns@.take(turn_index as int + 1);
            assert(taken.drop_last() =~= turns@.take(turn_index as int));
            assert(taken.last() == *turn);
            assert(turn.items@.take(turn.items@.len() as int) =~= turn.items@);
        }
        turn_index = turn_index + 1;
    }
    assert(turns@.take(turns@.len() as int) =~= turns@);
    responses
}

// ---------------------------------------------------------------------------
// Responses of transcript cells
// ---------------------------------------------------------------------------
/// The replies in the cells of a transcript, each as the cells that hold it: a cell of
/// markdown, or a message cell with the message cells right behind it that continue it.
pub open spec fn replies(cells: Seq<history_cell::CellView>) -> Seq<Seq<history_cell::CellView>>
    decreases cells.len(),
{
    if cells.len() == 0 {
        Seq::<Seq<history_cell::CellView>>::empty()
    } else {
        let head = replies(cells.drop_last());
        let cell = cells.last();
        match cell {
            history_cell::CellView::Message(message) => if message.continues && follows_message(
                cells,
            ) {
                head.drop_last().push(head.last().push(cell))
            } else {
                head.push(seq![cell])
            },
            history_cell::CellView::Markdown { raw_markdown, .. } => if strings::blank(
                raw_markdown,
            ) {
                head
            } else {
                head.push(seq![cell])
            },
            history_cell::CellView::Other => head,
        }
    }
}

/// Whether the last cell stands right behind a message cell.
pub open spec fn follows_message(cells: Seq<history_cell::CellView>) -> bool {
    cells.len() >= 2 && cells[cells.len() - 2] is Message
}

/// The last text that message cells know of a reply.
pub open spec fn last_markdown(cells: Seq<history_cell::CellView>) -> Option<Seq<char>>
    decreases cells.len(),
{
    if cells.len() == 0 {
        None
    } else {
        match cells.last() {
            history_cell::CellView::Message(message) if message.raw_markdown is Some => {
                message.raw_markdown
            },
            _ => last_markdown(cells.drop_last()),
        }
    }
}

/// The last segments that message cells know of a reply.
pub open spec fn last_segments(cells: Seq<history_cell::CellView>) -> Option<Seq<Seq<char>>>
    decreases cells.len(),
{
    if cells.len() == 0 {
        None
    } else {
        match cells.last() {
            history_cell::CellView::Message(message) if message.source_segments is Some => {
                message.source_segments
            },
            _ => last_segments(cells.drop_last()),
        }
    }
}

/// The texts of all lines of some cells.
pub open spec fn all_texts(cells: Seq<history_cell::CellView>) -> Seq<Seq<char>>
    decreases cells.len(),
{
    if cells.len() == 0 {
        Seq::<Seq<char>>::empty()
    } else {
        all_texts(cells.drop_last()) + match cells.last() {
            history_cell::CellView::Message(message) => message.texts,
            history_cell::CellView::Markdown { texts, .. } => texts,
            history_cell::CellView::Other => Seq::<Seq<char>>::empty(),
        }
    }
}

/// The response that the cells of a reply hold.
pub open spec fn reply_response(cells: Seq<history_cell::CellView>, index: int) -> ResponseView {
    ResponseView {
        index,
        display_lines: all_texts(cells),
        source_text: match cells.last() {
            history_cell::CellView::Markdown { raw_markdown, .. } if cells.len() > 0 => Some(
                raw_markdown,
            ),
            _ => last_markdown(cells),
        },
        source_segments: last_segments(cells),
        single_segment: true,
    }
}

/// The responses in the cells of a transcript.
pub open spec fn cell_responses(cells: Seq<history_cell::CellView>) -> Seq<ResponseView> {
    let found = replies(cells);
    Seq::new(found.len(), |i: int| reply_response(found[i], i))
}

/// The views of message cells.
pub open spec fn message_cells(cells: Seq<&AgentMessageCell>) -> Seq<history_cell::CellView> {
    Seq::new(
        cells.len(),
        |i: int| history_cell::CellView::Message(history_cell::message_view(*cells[i])),
    )
}

/// The response that the message cells of a reply hold.
pub fn assistant_response_from_message_cells(
    assistant_message_index: usize,
    cells: &[&AgentMessageCell],
) -> (response: AssistantResponse)
    ensures
        response@ == reply_response(message_cells(cells@), assistant_message_index as int),
{
    let ghost views = message_cells(cells@);
    let mut source_text: Option<String> = None;
    let mut source_segments: Option<Vec<String>> = None;
    let mut display_lines: Vec<String> = Vec::new();
    let mut index: usize = 0;
    assert(views.take(0) =~= Seq::<history_cell::CellView>::empty());
    assert(strings::texts(display_lines@) =~= Seq::<Seq<char>>::empty());
    while index < cells.len()
        invariant
            index <= cells@.len(),
            views == message_cells(cells@),
            strings::opt_text(source_text) == last_markdown(views.take(index as int)),
            protocol::opt_texts(source_segments) == last_segments(views.take(index as int)),
            strings::texts(display_lines@) == all_texts(views.take(index as int)),
        decreases cells@.len() - index,
    {
        let cell: &AgentMessageCell = cells[index];
        let ghost taken = views.take(index as int + 1);
        assert(taken.drop_last() =~= views.take(index as int));
        assert(taken.last() == history_cell::CellView::Message(history_cell::message_view(*cell)));
        if cell.raw_markdown.is_some() {
            source_text = copy_optional(&cell.raw_markdown);
        }
        if cell.source_segments.is_some() {
            source_segments = copy_optional_strings(&cell.source_segments);
        }
        let mut texts = cell.source_lines_plain_text();
        let ghost before = strings::texts(display_lines@);
        let ghost own = strings::texts(texts@);
        display_lines.append(&mut texts);
        assert(strings::texts(display_lines@) =~= before + own);
        index = index + 1;
    }
    assert(views.take(cells@.len() as int) =~= views);
    assert(views.len() > 0 ==> views.last() is Message);
    AssistantResponse {
        assistant_message_index,
        display_lines,
        source_text,
        source_segments,
        allow_single_segment_fallback: true,
    }
}

/// The responses so far, and the open reply behind them.
spec fn gathered(
    responses: Seq<AssistantResponse>,
    open: Seq<&AgentMessageCell>,
    cells: Seq<history_cell::CellView>,
) -> bool {
    let found = replies(cells);
    if cells.len() > 0 && cells.last() is Message {
        &&& open.len() > 0
        &&& found.len() == responses.len() + 1
        &&& message_cells(open) == found.last()
        &&& response_views(responses) == cell_responses(cells).drop_last()
    } else {
        &&& open.len() == 0
        &&& response_views(responses) == cell_responses(cells)
    }
}

proof fn lemma_replies(cells: Seq<history_cell::CellView>)
    ensures
        cells.len() > 0 && cells.last() is Message ==> replies(cells).len() > 0,
    decreases cells.len(),
{
    if cells.len() > 0 {
        lemma_replies(cells.drop_last());
    }
}

/// The responses in the cells of a transcript.
pub fn assistant_responses_from_cells(cells: &[HistoryCell]) -> (responses: Vec<AssistantResponse>)
    ensures
        response_views(responses@) == cell_responses(history_cell::cell_views(cells@)),
{
    let ghost views = history_cell::cell_views(cells@);
    let mut responses: Vec<AssistantResponse> = Vec::new();
    let mut current_message_cells: Vec<&AgentMessageCell> = Vec::new();
    let mut index: usize = 0;
    assert(views.take(0) =~= Seq::<history_cell::CellView>::empty());
    assert(response_views(responses@) =~= cell_responses(views.take(0)));
    while index < cells.len()
        invariant
            index <= cells@.len(),
            views == history_cell::cell_views(cells@),
            gathered(responses@, current_message_cells@, views.take(index as int)),
        decreases cells@.len() - index,
    {
        let ghost head = views.take(index as int);
        let ghost taken = views.take(index as int + 1);
        let ghost cell = views[index as int];
        proof {
            assert(taken.drop_last() =~= head);
            assert(taken.last() == cell);
            assert(taken.len() >= 2 ==> taken[taken.len() - 2] == head.last());
            lemma_replies(head);
            lemma_replies(taken);
        }
        let ghost old_views = response_views(responses@);
        let ghost old_open = message_cells(current_message_cells@);
        if let HistoryCell::Message(message_cell) = &cells[index] {
            if !message_cell.is_stream_continuation() && current_message_cells.len() > 0 {
                let response = assistant_response_from_message_cells(
                    responses.len(),
                    &current_message_cells,
                );
                let ghost added = response@;
                responses.push(response);
                current_message_cells.clear();
                proof {
                    assert(response_views(responses@) =~= old_views.push(added));
                    assert(response_views(responses@) =~= cell_responses(head));
                }
            }
            let ghost open = message_cells(current_message_cells@);
            current_message_cells.push(message_cell);
            proof {
                assert(message_cells(current_message_cells@) =~= open.push(cell));
                assert(replies(taken).drop_last() =~= replies(head) || replies(taken).drop_last()
                    =~= replies(head).drop_last());
                assert(cell_responses(taken).drop_last() =~= response_views(responses@));
                assert(open.len() == 0 ==> message_cells(current_message_cells@) =~= seq![cell]);
            }
            index = index + 1;
            continue ;
        }
        if current_message_cells.len() > 0 {
            let response = assistant_response_from_message_cells(
                responses.len(),
                &current_message_cells,
            );
            let ghost added = response@;
            responses.push(response);
            current_message_cells.clear();
            proof {
                assert(response_views(responses@) =~= old_views.push(added));
                assert(response_views(responses@) =~= cell_responses(head));
            }
        }
        assert(response_views(responses@) == cell_responses(head));
        if let HistoryCell::Markdown(markdown_cell) = &cells[index] {
            if !is_blank(markdown_cell.markdown_source.as_str()) {
                let ghost before = response_views(responses@);
                let response = AssistantResponse {
                    assistant_message_index: responses.len(),
                    display_lines: source_lines_plain_text(&markdown_cell.lines),
                    source_text: Some(markdown_cell.markdown_source.clone()),
                    source_segments: None,
                    allow_single_segment_fallback: true,
                };
                let ghost added = response@;
                responses.push(response);
                proof {
                    let reply = seq![cell];
                    reveal_with_fuel(all_texts, 2);
                    reveal_with_fuel(last_segments, 2);
                    assert(reply.drop_last() =~= Seq::<history_cell::CellView>::empty());
                    assert(all_texts(reply) =~= added.display_lines);
                    assert(last_segments(reply) is None);
                    assert(added == reply_response(reply, before.len() as int));
                    assert(response_views(responses@) =~= before.push(added));
                    assert(cell_responses(taken) =~= cell_responses(head).push(added));
                }
            }
        }
        index = index + 1;
    }
    assert(views.take(cells@.len() as int) =~= views);
    if current_message_cells.len() > 0 {
        let ghost old_views = response_views(responses@);
        let response = assistant_response_from_message_cells(
            responses.len(),
            &current_message_cells,
        );
        let ghost added = response@;
        responses.push(response);
        assert(response_views(responses@) =~= old_views.push(added));
        assert(response_views(responses@) =~= cell_responses(views));
    }
    responses
}

// ---------------------------------------------------------------------------
// All responses
// ---------------------------------------------------------------------------
/// The responses of a conversation: those of its stored turns, where they are known, and
/// those of the transcript otherwise. Where there are none, the markdown of the running
/// session is one.
pub open spec fn conversation_responses(
    cells: Seq<history_cell::CellView>,
    turns: Option<Seq<Turn>>,
    latest: Option<Seq<char>>,
    model: spec_fn(Seq<char>) -> Seq<styled::LineView>,
) -> Seq<ResponseView> {
    let found = match turns {
        Some(turns) => message_responses(protocol::turn_messages(turns), model),
        None => cell_responses(cells),
    };
    match visible_text(latest) {
        Some(latest) if found.len() == 0 => seq![
            ResponseView {
                index: 0,
                display_lines: styled::plain_lines(model(latest)),
                source_text: Some(latest),
                source_segments: None,
                single_segment: true,
            },
        ],
        _ => found,
    }
}

/// The turns of an optional slice.
pub open spec fn opt_turns(turns: Option<&[Turn]>) -> Option<Seq<Turn>> {
    match turns {
        Some(turns) => Some(turns@),
        None => None,
    }
}

/// The responses of a conversation.
pub fn assistant_responses<F: Fn(&str) -> Vec<Line>>(
    cells: &[HistoryCell],
    turns: Option<&[Turn]>,
    latest_raw_assistant_markdown: Option<&str>,
    append_markdown: &F,
) -> (responses: Vec<AssistantResponse>)
    requires
        styled::is_renderer(*append_markdown),
    ensures
        forall|model: spec_fn(Seq<char>) -> Seq<styled::LineView>| #[trigger]
            styled::renders_as(*append_markdown, model) ==> response_views(responses@)
                == conversation_responses(
                history_cell::cell_views(cells@),
                opt_turns(turns),
                strings::opt_str(latest_raw_assistant_markdown),
                model,
            ),
{
    let mut responses = match turns {
        Some(turns) => assistant_responses_from_turns(turns, append_markdown),
        None => assistant_responses_from_cells(cells),
    };
    assert(response_views(responses@).len() == responses@.len());
    if responses.len() == 0 {
        if let Some(latest) = visible_str(latest_raw_assistant_markdown) {
            let response = AssistantResponse {
                assistant_message_index: 0,
                display_lines: render_markdown_to_plain_lines(latest, append_markdown),
                source_text: Some(latest.to_owned()),
                source_segments: None,
                allow_single_segment_fallback: true,
            };
            let ghost added = response@;
            responses.push(response);
            assert(response_views(responses@) =~= seq![added]);
        }
    }
    responses
}

/// Every response of a conversation is numbered by its place.
pub proof fn law_responses_are_numbered(
    cells: Seq<history_cell::CellView>,
    turns: Option<Seq<Turn>>,
    latest: Option<Seq<char>>,
    model: spec_fn(Seq<char>) -> Seq<styled::LineView>,
    i: int,
)
    requires
        0 <= i < conversation_responses(cells, turns, latest, model).len(),
    ensures
        conversation_responses(cells, turns, latest, model)[i].index == i,
{
}

/// The text of the latest response is the markdown of the running session wherever that is
/// not blank, whatever source the response stores itself. The text of any other response,
/// and of the latest one where the session knows none, is its stored source, whatever the
/// session holds. Without either, the displayed lines are searched.
pub proof fn law_latest_markdown_comes_first(
    response: ResponseView,
    latest: Option<Seq<char>>,
    markdown: Seq<char>,
)
    ensures
        !strings::blank(markdown) ==> {
            &&& raw_markdown(response, Some(markdown), true) == Some(markdown)
            &&& lines_to_search(response, Some(markdown), true) == search_lines(markdown)
        },
        latest is None || strings::blank(latest->0) ==> {
            &&& raw_markdown(response, latest, true) == raw_markdown(response, None, false)
            &&& lines_to_search(response, latest, true) == lines_to_search(response, None, false)
        },
        raw_markdown(response, latest, false) == raw_markdown(response, None, false),
        lines_to_search(response, latest, false) == lines_to_search(response, None, false),
        response.source_text == Some(markdown) && !strings::blank(markdown) ==> {
            &&& raw_markdown(response, None, false) == Some(markdown)
            &&& lines_to_search(response, None, false) == search_lines(markdown)
        },
        response.source_text is None || strings::blank(response.source_text->0) ==> {
            &&& raw_markdown(response, None, false) is None
            &&& lines_to_search(response, None, false) == response.display_lines
        },
{
}

/// The lines that are searched are those of the text, one for one.
pub proof fn law_lines_are_searched_one_by_one(line: Seq<char>, rest: Seq<char>)
    requires
        strings::lacks(line, '\n'),
    ensures
        search_lines(line) == seq![search_line(line)],
        search_lines(line.push('\n') + rest) == seq![search_line(line)] + search_lines(rest),
{
    strings::law_lines_end_at_newlines(line, rest);
    assert(search_lines(line) =~= seq![search_line(line)]);
    assert(search_lines(line.push('\n') + rest) =~= seq![search_line(line)] + search_lines(rest));
}

/// A conversation with stored turns is that of their messages, whatever the transcript
/// shows; without them it is that of the transcript. The markdown of the running session is
/// a response of its own only where there is no other.
pub proof fn law_stored_turns_come_first(
    cells: Seq<history_cell::CellView>,
    turns: Option<Seq<Turn>>,
    latest: Option<Seq<char>>,
    markdown: Seq<char>,
    model: spec_fn(Seq<char>) -> Seq<styled::LineView>,
)
    ensures
        ({
            let found = conversation_responses(cells, turns, None, model);
            let other = conversation_responses(cells, turns, latest, model);
            &&& turns matches Some(turns) ==> found == message_responses(
                protocol::turn_messages(turns),
                model,
            )
            &&& turns is None ==> found == cell_responses(cells)
            &&& found.len() > 0 ==> other == found
            &&& latest is None || strings::blank(latest->0) ==> other == found
            &&& found.len() == 0 && latest == Some(markdown) && !strings::blank(markdown) ==> {
                &&& other.len() == 1
                &&& other[0].index == 0
                &&& other[0].source_text == Some(markdown)
                &&& other[0].display_lines == styled::plain_lines(model(markdown))
                &&& other[0].source_segments is None
                &&& other[0].single_segment
            }
        }),
{
}

/// A stored message is the response of its place. Its text is the stored source, or what it
/// says where no source is stored, and its anchors need the stored pieces.
pub proof fn law_stored_messages_are_responses(
    messages: Seq<protocol::AgentMessageView>,
    model: spec_fn(Seq<char>) -> Seq<styled::LineView>,
    i: int,
)
    requires
        0 <= i < messages.len(),
    ensures
        ({
            let found = message_responses(messages, model);
            let message = messages[i];
            let source = found[i].source_text;
            &&& found.len() == messages.len()
            &&& found[i].index == i
            &&& message.source_text is Some ==> source == message.source_text
            &&& message.source_text is None ==> source == Some(message.text)
            &&& found[i].display_lines == styled::plain_lines(model(source->0))
            &&& found[i].source_segments == message.source_segments
            &&& !found[i].single_segment
        }),
{
}

/// One more cell of the transcript: a message that continues the message right before it
/// belongs to the same reply, any other message and any markdown that is not blank start a
/// reply of their own, and everything else is no part of one.
pub proof fn law_cells_make_replies(
    cells: Seq<history_cell::CellView>,
    cell: history_cell::CellView,
)
    ensures
        ({
            let old_replies = replies(cells);
            let all = replies(cells.push(cell));
            match cell {
                history_cell::CellView::Message(message) => {
                    if message.continues && cells.len() > 0 && cells.last() is Message {
                        &&& all.len() == old_replies.len()
                        &&& all.len() > 0
                        &&& all.drop_last() == old_replies.drop_last()
                        &&& all.last() == old_replies.last().push(cell)
                    } else {
                        all == old_replies.push(seq![cell])
                    }
                },
                history_cell::CellView::Markdown { raw_markdown, .. } => {
                    if strings::blank(raw_markdown) {
                        all == old_replies
                    } else {
                        all == old_replies.push(seq![cell])
                    }
                },
                history_cell::CellView::Other => all == old_replies,
            }
        }),
        replies(Seq::<history_cell::CellView>::empty()).len() == 0,
{
    assert(cells.push(cell).drop_last() =~= cells);
    lemma_replies(cells);
    if cells.len() > 0 {
        assert(cells.push(cell)[cells.push(cell).len() - 2] == cells.last());
    }
}

/// A reply displays the lines of all its messages. Its source and its pieces are those of
/// the last message that knows them. A reply of markdown is that markdown.
pub proof fn law_replies_hold_their_messages(
    cells: Seq<history_cell::CellView>,
    message: history_cell::MessageView,
    markdown: Seq<char>,
    texts: Seq<Seq<char>>,
    index: int,
)
    requires
        forall|i: int| 0 <= i < cells.len() ==> #[trigger] cells[i] is Message,
    ensures
        ({
            let old_reply = reply_response(cells, index);
            let reply = reply_response(
                cells.push(history_cell::CellView::Message(message)),
                index,
            );
            &&& reply.index == index
            &&& reply.display_lines == old_reply.display_lines + message.texts
            &&& message.raw_markdown is Some ==> reply.source_text == message.raw_markdown
            &&& message.raw_markdown is None && cells.len() > 0 ==> reply.source_text
                == old_reply.source_text
            &&& message.raw_markdown is None && cells.len() == 0 ==> reply.source_text is None
            &&& message.source_segments is Some ==> reply.source_segments
                == message.source_segments
            &&& message.source_segments is None && cells.len() > 0 ==> reply.source_segments
                == old_reply.source_segments
            &&& message.source_segments is None && cells.len() == 0 ==> reply.source_segments
                is None
            &&& reply.single_segment
        }),
        ({
            let cell = history_cell::CellView::Markdown { raw_markdown: markdown, texts };
            let reply = reply_response(seq![cell], index);
            &&& reply.display_lines == texts
            &&& reply.source_text == Some(markdown)
            &&& reply.source_segments is None
            &&& reply.single_segment
        }),
{
    let all = cells.push(history_cell::CellView::Message(message));
    assert(all.drop_last() =~= cells);
    if cells.len() > 0 {
        assert(cells[cells.len() - 1] is Message);
    }
    let cell = history_cell::CellView::Markdown { raw_markdown: markdown, texts };
    let none = Seq::<history_cell::CellView>::empty();
    assert(seq![cell].drop_last() =~= none);
    assert(all_texts(none) =~= Seq::<Seq<char>>::empty());
    assert(all_texts(seq![cell]) =~= texts);
    assert(last_segments(none) is None);
    assert(last_segments(seq![cell]) is None);
    assert(last_markdown(none) is None);
}

/// A line without emphasis and code marks is searched as it is.
pub proof fn law_unmarked_lines_are_searched_as_they_are(line: Seq<char>)
    requires
        strings::lacks(line, '*'),
        strings::lacks(line, '_'),
        strings::lacks(line, '`'),
    ensures
        search_line(line) == line,
{
    strings::lemma_nothing_to_take_away(line, '*');
    strings::lemma_nothing_to_take_away(line, '_');
    strings::lemma_nothing_to_take_away(line, '`');
}

} // verus!
