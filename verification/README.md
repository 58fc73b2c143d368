# Nōki

A version-control powered note-taking tool: notes are Markdown files with
YAML frontmatter in a Git repository, captured from the editor or piped
input and browsed from the command line.

## Layout

- `src/` — the library, verified with Verus:
  - `template` — the `{field}` / `{field:format}` filename and title
    templates (slugified path segments capped at a word boundary);
  - `note` — the note model, frontmatter framing, note paths and titles;
  - `commands/` — what capturing, editing and the daily note decide, the
    newest-first listing, and how `show` is sized;
  - `render/` — the terminal Markdown renderer: styled spans, greedy word
    wrap, block layout, and why color adds nothing but escape codes;
  - `label` — label chips and the per-render palette;
  - `output` — the metadata table of a note and the note list;
  - `table` — tables drawn by tabled, one setting at a time;
  - `sync` — the decisions of syncing with the remote (fast-forward,
    rebase or abort, and what a failed push means for a commit);
  - `config` — layering of configuration files;
  - `vcs` — the storage interface, an in-memory store, and the listing
    rules of a working clone;
  - `editor`, `io`, `cli`, `text`, `md`, `timestamp` — supporting pieces.
- `tests/` — tests of the library.
- `app/` — the `noki` program: argument parsing, configuration files, the
  Git working clone, the editor, standard streams, JSON output, label colors.
