# cycle_midi

A live-coding MIDI sequencer. Patterns are written in `.mmn` files; the
program watches a workspace, recompiles a file when it is saved, and swaps
the new pattern in at the next phrase boundary while the old one keeps
playing.

## Layout

- `src/` — the library, verified with Verus:
  - `parser/` — the grammar of `.mmn` files, as functions on characters
    whose results are stated by spec functions of the grammar;
  - `aliases.rs`, `expand.rs` — the macro table and macro expansion;
  - `cycles.rs`, `math.rs` — cycle lengths, the macro-cycle of a program,
    `lcm`, pitch resolution against scales;
  - `render.rs`, `chord.rs`, `arp.rs`, `rhythm.rs` — the integer decisions
    of rendering: branches, segments, scales, seeds, chord voicings,
    arpeggio orders and Euclidean rhythms;
  - `scheduler.rs` — phrase lengths, when a staged program takes over, and
    the MIDI messages sent;
  - `midi_file.rs`, `midi_import.rs`, `import_grid.rs`, `imports.rs` —
    reading notes from MIDI files, writing them as pattern text, and
    replacing imports in a program;
  - `config.rs`, `text.rs` — settings and text helpers.
- `tests/` — tests of the library.
- `app/` — the program around it: configuration files, the file watcher,
  MIDI output, the real-time loop, and the floating-point timing of rendered
  events.
