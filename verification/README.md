# reply-branching

Branching from the middle of an assistant's reply, with its logic proved in Verus.

A user picks a piece of a reply that they have read. The library finds the one place of
the conversation that the piece comes from, cuts the history of the thread behind it, and
shows in the parent thread where its branches left.

- `src/` is the verified library.
  - `text`, `strings`, `normalized`, `structure`, `styled`, `line_split`, `ranking`: texts as
    characters and bytes, lines, styled lines, stable sorting.
  - `responses`, `snippet`, `anchor`, `branch_locator`: from a snippet to a read point.
  - `rollout`, `read_point`: the recorded history up to a read point.
  - `branch_context`: what holds from the snippet through to the branch's history.
  - `agent_markers`, `decoration`, `marker_position`, `pending_marker`, `child_load`,
    `child_markers`: the places of child branches in the replies of their parent.
  - `threads`, `branch_navigator`, `branch_list`, `branching`: the branch commands.
  - `branch_chrome`, `branch_notice`, `history_cell`, `replay`: what is shown.
- `tests/` runs the library on concrete conversations.
- `app/` connects the library to an app server and a terminal.

What renders Markdown, shortens texts and relinks wrapped lines is handed in as a function.
The contracts hold for every such function whose result depends on its arguments alone.
