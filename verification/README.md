# jk

A command alias runner: commands are declared in a TOML file (`.jk` in the
project, `config.toml` in the jk home), grouped in namespaces, filled in from
`#{N}` / `#{@}` placeholders with shell quoting, and run with the shell each
command names.

The library under `src/` is written in Verus and proved against its contracts:

- `cli` — the `++flag` command line (laws: everything after `--` is
  positional; the switches may stand anywhere before it and are taken out in
  order; an unknown `++name` is refused even after `++version`);
- `toml_doc`, `schema` — a TOML document read into a command tree (laws: every
  namespace comes out ordered by name and non-empty; every leaf is marked local,
  has at least one command, none blank, with placeholders that check out; a
  leaf's shell is its own or else the file's);
- `config` — the command tree, lookups, origins, the merge of a local tree over
  a global one (laws: lookup goes name by name; merging by name; a merge fails exactly when a leaf meets a
  namespace; merging and tagging keep the order; tagging changes origins and
  nothing else), and where the configuration files are looked for (law: the
  upward walk stops at the nearest directory holding a `.jk`);
- `render`, `folding` — placeholder templates, folding a multi-line command onto
  one line (laws: the result is one line, keeps its placeholders, has no outer
  whitespace and folds to itself; a command without placeholders is used as
  written; the indices of a sequence are gathered across its commands and must
  run from 1 to the highest without a gap);
- `shell` — the shells, how each is started, and quoting for each shell: POSIX
  rules for bash, sh and bun, zsh's as well for words starting with `=`, fish's
  backslash escape inside single quotes, and PowerShell's own, which quotes a
  `,` and doubles typographic single quotes too (laws: a quoted argument reads
  back as exactly one word with the given text, under a model of how each shell
  reads a word);
- `resolver`, `run` — resolving the command path (law: it agrees with looking
  the path up) and deciding what a command line does (listing, dry run or
  run), and the step-by-step decisions of a sequence run (law: it stops at the
  first failing step);
- `output` — the status lines (`running <command>`, `completed in <N>ms`) and
  the command listing as text, with its `configs:` header and the `(g)` / `(o)`
  origin markers;
- `error`, `text` — the error type and character-level helpers.

`app/main.rs` is the program around it: it reads the environment, the files and
the clock, spawns the shells, and prints. `tests/` runs the library on
concrete values.
