# typ

The core of a terminal typing trainer, written in Verus: every function in
`src/` carries a contract that the verifier proves.

- `src/text.rs` — character-level helpers (trimming, searching, ordering,
  quoting) and the few calls into `std` that the rest builds on.
- `src/prompt.rs`, `src/session/` — the prompt and the live session state
  machine: keystrokes in, events out, with replay of a recorded session.
- `src/layout.rs`, `src/display.rs` — the keyboard layout and how a session
  is laid out in a terminal viewport (terminal widths come from
  `unicode-width`).
- `src/analysis/` — alignment of what was typed against the prompt, word
  attempts, the intervals between keystrokes, and the per-slot report.
- `src/metrics.rs`, `src/compose.rs`, `src/scheduler/` — counting metrics,
  composed prompts, and the exposure and training-history bookkeeping the
  scheduler decides on.
- `src/corpus.rs`, `src/model/` — reading, filtering and ranking the word
  list, the inverted index from each pattern to the words holding it, word
  lookup by text, the scheduler configuration's syntax, and the pattern
  hierarchy.
- `src/store/` — the text formats of stored rows and settings, with their
  round trips proved.

`app/` holds what the verifier does not take: the floating-point statistics
(speed, weakness, the context model, random draws) and the SQLite store
(`app/store/`), which reads and writes rows through the library's checks
and formats. `tests/` exercises the library on concrete values.
