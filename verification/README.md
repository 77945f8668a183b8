# Mission control

A verified core for two dock panels of an editor, written in Verus.

**Mission control** triages agent conversation threads: each thread is
*needs you*, *awaiting merge*, *running* or *done*, and the concrete ask that
an agent left is extracted from its final message. An offer that asks nothing
of the user leaves the thread *done* and is shown with it.

**The workcat map** shows work items from a repository used as a database.
Items are briefs (`briefs/*.md`), positions and lenses are folded from an
append-only event log (`events/YYYY-MM/log.jsonl`), and a session's events
are committed at checkpoints under a write lock.

## Layout

- `src/`: the library. Every function has a contract that Verus proves.
  Functions named `law_*` are proofs of what holds across functions: what a
  read gives back of a write, what undo restores, what a merge keeps.
- `tests/`: the library on concrete values, with the outside crates linked.
- `app/`: the program around the library: files, processes, the threads
  database, floating-point geometry, and the panels. The panels draw with the
  editor's own crates and are built inside its workspace, with the `editor`
  feature on.

## Numbers

The library holds a coordinate as the bits of a double-precision number and
reasons about order and equality on them. What adds or divides coordinates
stands in `app/geometry.rs`.

## What is trusted

Calls into serde_json, zstd, regex and chrono, and three functions of the
standard library, stand behind small functions whose contracts are believed.
Each says in its doc comment what it claims of the outside function.
