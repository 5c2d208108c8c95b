# foldback

Divergence detection for lockstep and rollback multiplayer simulations:
hash the simulation state every tick, exchange the hashes with peers, find
the first tick at which two peers disagree, and record everything to the
append-only `.foldback` session format.

The library under `src/` is verified with Verus. Every public function has
a contract over a mathematical model of its data, and the properties the
library promises as a whole are stated and proved as public proof
functions (`lemma_*`).

## Layout

- `src/format.rs`: the `.foldback` codec (32-byte header, length-prefixed
  frames, a reader that tolerates truncation and skips unknown frame
  types), with round-trip and truncation laws.
- `src/bisect.rs`: the first tick at which reported tick hashes disagree.
- `src/session.rs`: the `Session` state machine: local hashing, peer
  reports, pending hashes, divergence checks, the combined session hash,
  and the encoded recording.
- `src/ring_buffer.rs`: the bounded ring buffer and the retention window,
  which is counted in ticks, however many peers report each.
- `src/schema.rs`: schema fingerprints, schema extraction and drift.
- `src/report.rs`, `src/viewer.rs`: reading a whole recording and
  summarising it for the command line and for a viewer.
- `src/reflect_walk.rs`: reflective hashing of a reflected value: only
  the root's tagged fields, everything beneath them, named by dotted and
  indexed paths, map and set entries in text order, a depth guard; with
  the laws that untagged fields are invisible and that entry order does
  not matter.
- `src/godot_walk.rs`: reflective hashing over an object graph, with the
  tracked-name prefix checked at every object, a reference-cycle guard
  and a depth guard.
- `src/scan.rs`: the per-file scan behind `foldback lint`: parsing with
  `syn` behind a trusted wrapper that only converts the syntax tree into
  plain values, then reading `derive(..)` and `foldback(..)` attributes and
  finding the `FoldbackHash` structs, inline modules included.
- `src/derive_plan.rs`: what `#[derive(FoldbackHash)]` decides for a
  struct's fields, read from their attributes as the parser gives them,
  and where a refused marking stands.
- `src/binding.rs`: an engine binding's decisions: building a session
  from a loose configuration, telling tracked properties by name.
- `src/hashable.rs`, `src/ggrs.rs`, `src/preview.rs`, `src/lint.rs`,
  `src/live.rs`: per-field hashing, the GGRS checksum bridge, the
  reflective-hashing preview data, the lint decisions and the live-mode
  messages.
- `src/hash.rs`, `src/snapshot.rs`: the calls into xxHash3 and zstd, behind
  trusted wrappers whose contracts name their results.
- `app/`: the `foldback` command line, file-backed recording, the live
  WebSocket server and viewer client, the C ABI, the conversion of Bevy reflection into
  plain reflected values, the derive's token emission and the egui
  preview panel: everything that does I/O or needs an outside trait.
- `tests/`: the test suite, run against the compiled library.
