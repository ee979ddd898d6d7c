# Peanutbutter

A terminal snippet manager. Snippets live in markdown files: a `## heading`, a
description, and a fenced code block whose `<@name>` placeholders are asked for
before the command is handed back to the shell.

The logic is a library verified with Verus. Its functions state what they
return in `requires` and `ensures`; what relates several of them is stated by
the proof functions named `law_...`.

## Layout

- `src/` the verified library
  - `text`, `text_map`, `line_edit`, `path`, `style`: texts, small maps, the
    cursor in a line, paths and styled runs
  - `frontmatter`, `parser`, `domain`, `index`, `discovery`, `glob`: from files
    to indexed snippets
  - `browse`, `needle`, `fuzzy`, `search`, `edit_distance`: finding snippets
  - `frecency`, `gc`: what was used, and what of it still exists
  - `command_template`: placeholders with shell quoting
  - `config`, `keybinds`, `completions`, `cli`, `docs`: settings, keys, shell
    integration and what the commands print
  - `edit`: where a new snippet goes, which editor is opened and where, and the
    removal of a snippet
  - `history_trial`: the picker over the shell's history
  - `execute`: the session: picking a snippet, filling in its variables, and
    what is drawn
- `app/` the program: arguments, files, the terminal, processes, and the
  floating-point ranking
- `tests/` tests of the library

## What is trusted

Calls into other crates stand behind small functions marked
`#[verifier::external_body]`, each with a comment that says what is claimed:
matching by `nucleo-matcher` in `fuzzy`, markdown by `termimad` and escape
sequences by `ansi-to-tui` in `execute::render::preview`, screen areas by
`ratatui` in `execute::render::layout`, Unicode's letter case and classes from
the standard library in `text`, and the character of a number in `needle`.
