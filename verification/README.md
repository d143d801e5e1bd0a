# sisyphus

**Finds the boulders you keep pushing.**

sisyphus mines real work history — the shell's and that of coding agents — for
multi-step command sequences that keep being repeated by hand, and has an agent
draft the automation: a script, an alias or a skill.

The logic is a Verus library: its public functions state in their contracts what
they return, its laws stand beside them as public proof functions, and Verus
proves both. Around it stands ordinary Rust for the database, the file system, the
terminal and the network.

## Layout

| Place | What it holds |
|---|---|
| `src/collect/` | reading histories: timestamps, shell history, hook log, transcripts |
| `src/normalize.rs`, `src/regexp.rs` | commands to templates |
| `src/mine/` | streams, step costs, workflows, fix loops, prompt clusters, intents, replayed sessions, candidates |
| `src/draft/` | prompts for the drafter, reading its answers, where drafts are installed |
| `src/evolve.rs`, `src/gain.rs`, `src/scan.rs` | what became of decisions |
| `src/report.rs`, `src/stats.rs`, `src/doctor.rs`, `src/serve.rs`, `src/tui/`, `src/theme.rs`, `src/watch.rs` | what is shown and asked |
| `src/seed.rs` | synthetic history |
| `src/text.rs`, `src/number.rs`, `src/order.rs`, `src/path.rs`, `src/json.rs`, `src/group.rs`, `src/intern.rs` | the basics |
| `app/` | the program: command line, SQLite, files, processes, terminal, HTTP |
| `tests/` | tests of the library |

## Scores

A pattern's score is the time it has cost by hand, as an exact number: 4000 units
are a second, so that the weights of fix loops (quarters) and intents (halves) on
milliseconds stay whole. Rounding happens only where a score is printed, with
halves going to the even neighbour.

## What is taken on trust

Calls into the standard library, `serde_json`, `regex`, `toml` and `dirs` stand
behind small functions whose doc comments say what is assumed of them. Everything
else is proved.
