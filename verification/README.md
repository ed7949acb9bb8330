# glyphhunt

A benchmark that asks agentic coding models to find the word
`theolovesobsidian`, hidden one glyph at a time inside a 30-second video, and
scores what they report.

The crate is in two parts.

- `src/` is the library, written in Verus: every function carries a
  `requires`/`ensures` contract and is proved against it, except three small
  trusted wrappers (marked `#[verifier::external_body]`) around calls that
  are taken on their documented behaviour: `str::to_lowercase`,
  `String::push` and `strsim::levenshtein`. It holds
  the benchmark's rules and bookkeeping:
  - `config`: the grid of models, levels and prompt modes;
  - `jobs`: the work list, run ids and the command-line selections;
  - `runner`, `events`: how each harness event and shell command changes a
    run's record (tool tallies, techniques used, integrity violations), when
    a quiet run is stuck, and how each harness is invoked;
  - `truth`, `score`: the answer key and the scoring of an answer (word,
    per-position characters, frames, spatial credit);
  - `record`: a run's outcome, including the rule that a run that touched the
    project tree is `Cheated` and scores nothing;
  - `report`, `tui`, `rank`: the tallies behind the final report and the live
    leaderboard, and their exact, stable ordering;
  - `text`, `order`: character-level helpers and a verified sort.
- `app/` is the program around it: command-line parsing, spawning the agents,
  reading and writing files, JSON (de)serialisation, the terminal UI, and the
  few computations on real numbers (pixel distances, means, colours).

Laws that span several functions are stated as public proof functions named
`law_*`; `tests/` runs the library on concrete values.
