# handy

The history and live-transcript logic of a dictation app, written in Verus.

- `src/text.rs` — splitting text into whitespace-separated words, trimming,
  normalising words for comparison (surrounding punctuation dropped, ASCII
  lowercased), counting words, decimal formatting.
- `src/live.rs` — merging successive partial transcriptions of a rolling audio
  window into one running transcript (`merge_live_partial`), the live
  transcription session's decisions (`LiveTranscriptProgress`), and the
  overlay's visibility, size and placement.
- `src/stats.rs` — dashboard totals, active days and the daily streak.
- `src/history.rs` — history entries and pages, clean-up by retention period,
  recording titles, and the learning of user corrections.
- `app/` — the desktop side (SQLite storage, WAV files, windows, Tauri
  commands), which calls the library for every decision. It belongs to a
  larger Tauri program and relies on that program's other modules.
- `tests/` — tests of the library.

Laws proved about the library are the `pub proof fn law_*` functions.
