# cockpit_dash

A terminal dashboard for `bd` (beads) tasks, grouped by the projects of a
project tree.

The logic is a library verified with Verus:

- `src/data.rs`: the project tree, projects and tasks; grouping tasks into
  projects by the longest matching id prefix; counting by status; labels;
  filtering by label and by text.
- `src/ui.rs`: the dashboard state: the flattened tree of rows, folding,
  selection, project tabs, the text filter, and the keys of the list.
- `src/detail.rs`: looking a task up by id and the keys of the detail view.
- `src/theme.rs`: colours and icons of the statuses.
- `src/rows.rs`, `src/text.rs`: the text of the tree's rows and of the
  detail view, piece by piece, with numbers in decimal and descriptions
  split into lines.
- `src/folding.rs`: how the rows depend on which rows are folded.
- `src/strings.rs`, `src/seqs.rs`: string and sequence helpers with their
  specifications, and `~` expansion in paths.
- `src/laws.rs`: properties that relate the functions to each other.

`app/` holds the program around it: command line, loading the project tree,
running `bd`, the terminal loop and the rendering with ratatui.
