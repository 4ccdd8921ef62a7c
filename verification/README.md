# luminatti

A keyboard-first terminal tool for reviewing the changes of a Git worktree:
a changed-file tree, unified and split diffs, fuzzy file search, local review
notes and agent comments, glob filters, and resizable panels.

## Layout

- `src/` is the library, verified with Verus. Each module states its
  behaviour in `requires` / `ensures` contracts over spec functions, and the
  properties that relate several operations stand as public proof functions
  named `law_*`.
  - `session.rs`: the view state and its transitions for keys, mouse events,
    loaded diffs (and whether a finished load is applied) and refreshed file
    lists.
  - `diff.rs`, `diff_view.rs`, `diff_cache.rs`: row alignment of line diffs,
    word-level spans, rendered lines and their visible prefixes, and the
    least-recently-used cache of loaded diffs.
  - `file_tree.rs`, `search.rs`, `filters.rs`, `git.rs`: the changed-file
    tree, the fuzzy picker, glob exclusions, and parsing of Git's output.
  - `panels.rs`, `layout.rs`, `navigation.rs`, `widgets.rs`: focus,
    maximization, divider geometry, selection and scrollbar arithmetic.
  - `comments.rs`, `settings.rs`, `storage.rs`, `worker.rs`: review notes,
    preferences, store versions, and the latest-request worker mailbox.
  - `watch.rs`: pacing of the event loop (input waits, refreshes, redraws).
  - `text.rs`: character-level helpers shared by the modules above.
- `app/` is the program around the library: argument parsing, Git
  subprocesses, JSON files, the terminal event loop, rendering, the clipboard,
  and the structural diff engine.
- `tests/` runs the library on concrete inputs.
