# wt

A git worktree manager configured per project by a `wt.toml` file: it creates and
removes worktrees, copies what they inherit from the main repository, allocates stable
ports, runs the shell hooks the project declares, remembers each worktree's options,
and shows all of it in a fuzzy menu and a dashboard.

## Layout

- `src/` — the library, verified with Verus: what `wt` decides, each function with its
  contract:
  - `text`, `dict` — text as character sequences, and the ordered map the
    configuration, variables and state are made of;
  - `tmpl`, `state`, `config` — templates, per-worktree variables and environment,
    the project's configuration and its worktree root;
  - `ops` — the operations: what a new worktree starts from, the ports a start hands
    out, the commands a hook or task runs, the address to open, which worktree a typed
    name designates, the preview of a worktree;
  - `git` — reading what git prints, and choosing the git command a creation takes;
  - `fuzzy`, `rank`, `picker` — fuzzy matching, ranking, and the filterable pickers;
  - `ansi` — coloured command output read into styled spans;
  - `keys`, `flow`, `menu`, `show`, `programs` — what the interfaces decide: keys and
    mouse events, dialogues, menu items, list columns, programs looked for;
  - `util`, `i18n`, `error` — paths, action logs, language choice, refusals.
- `tests/` — tests of the library on concrete values.
- `app/` — the program around it: command line, files, git and shell processes, the
  skim menu and the ratatui dashboard, which locates the row under the mouse and tells
  a double click from a single one before handing the event to `keys`.
