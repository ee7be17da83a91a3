# Aurora TLK Explorer core

A verified library for editing Neverwinter Nights talk tables (`.tlk`), 2DA
tables (text `2DA V2.0` and binary `2DA V2.b`) and item palettes (`.itp`),
written in Verus. Verus proves the `requires`/`ensures` contracts of the
functions in `src/`; all but a few small private helpers carry one.

Layout:

- `src/tlk.rs`, `src/twoda.rs`, `src/diff.rs`, `src/itp.rs` — the file formats:
  reading and writing talk tables, 2DA tables, TlkEdit diff and DTU files, and
  checking palette trees.
- `src/tlk_laws.rs`, `src/twoda_laws.rs`, `src/twoda_text_laws.rs` — proofs that
  what the writers produce reads back unchanged.
- `src/model.rs` — documents, edits and the bounded undo history.
- `src/editing.rs`, `src/selection.rs`, `src/search.rs`, `src/palette.rs` — the
  editor's operations on rows, columns, cells, selections, searches and palette
  trees, each as one undoable edit.
- `src/clipboard.rs`, `src/cliptext.rs`, `src/cliptext_laws.rs` — copy and
  paste, the clipboard's text, and proofs that copied rows read back from it.
- `src/session.rs`, `src/state.rs` — closing documents, saving all of them,
  and what is remembered between sessions.
- `src/commands.rs` — which command a shortcut or clipboard event asks for,
  how the menus show each command, and the labels of tabs and the delete
  button.
- `src/text.rs`, `src/numtext.rs`, `src/bytes.rs` — characters, numbers and bytes.
- `app/` — a command-line front end: it opens the files it is given, reports
  what each holds, and with `--save-as PATH` writes the last one to another
  file; also the palette converter, session storage and single-instance
  handoff.
- `tests/` — tests of the library on concrete values.
