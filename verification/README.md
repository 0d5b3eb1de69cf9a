# aus_vs_hound

A WAV read/write benchmark comparing the `audio_samples_io` and `hound`
libraries, with its planning, argument handling and report text verified
with Verus.

- `src/` — the verified library:
  - `kind.rs` — the four benchmark kinds and their names;
  - `args.rs` — command-line parsing (`lexical.rs`: splitting, trimming, numbers);
  - `plan.rs` — the order and progress numbering of a run;
  - `schedule.rs` — warmup, cache-drop and timed steps of one benchmark;
  - `formats.rs` — which sample type each library uses for a signal;
  - `samples.rs` — interleaving, chunking, locating the samples of a WAV file and byte sums;
  - `report.rs`, `table.rs`, `text.rs` — every line of text the benchmark prints or saves.
- `app/` — the program: file I/O, timing, the libraries under test, and the
  floating-point statistics.
- `tests/` — tests of the library.
