# league_scheduler

Bye weeks and a fair hosting schedule for a five- or six-team swim league.

- `src/` is the verified library: the configuration and its built-in round
  robins, the wizard's state machine (`SwimScheduler::update` returns the
  outside action it asks for), the text parsers and writers, and the
  scheduler (structural plan, host patterns, candidates per team ordering,
  deduplication and ranking). `src/laws.rs`, `src/roundtrip.rs` and
  `src/round_robin.rs` hold the properties proved of the library as a whole.
- `app/` is the iced window, the file dialogs and JSON files, the headless
  command line, and the parallel driver that reports progress.
- `tests/` runs the library on concrete inputs.
