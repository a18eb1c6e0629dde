# devtriage

Compiles local error logs into a traceable, redacted debugging context that
can be handed to a person or an external assistant.

The pipeline is `normalize → run capability packs → merge evidence → redact →
fingerprint → compile`. Every step lives in `src/` as verified code, with its
contract stated over the views in `model.rs`:

- `text.rs`, `spans.rs`: characters, UTF-8 lengths, lines, byte spans.
- `patterns.rs`: the regular expressions of the library as constants, matched
  through three small trusted wrappers (find, captures, is-match) whose
  results are named over the pattern and the text.
- `normalize.rs`, `universal.rs`, `graph.rs`, `redact.rs`, `fingerprint.rs`,
  `compiler.rs`, `pack.rs`, `pipeline.rs`: the pipeline.
- `domain.rs`, `projects.rs`, `recent.rs`, `desktop.rs`: the desktop shell's
  project ranking, its list of recent projects and its in-memory state.

`app/` holds the command-line program and the shell's file and clock access.

The desktop shell's window, tray and command registration, which belong to
its UI framework, are not part of this crate: its decisions (which click
shows the main window, when reopening restores it, the detail window's
label, what the shell keeps in memory) are verified in `src/desktop.rs`,
and the bodies of its commands over the shared state are in
`app/commands.rs`. The shell's test-only constructor is not here either:
it reads the environment's temporary directory.
