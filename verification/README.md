# Targone core

Bounded disk usage for Rust build directories: discover Cargo target
directories, classify what they hold by identity and recency, keep the newest
artifacts of every identity, and sweep the rest under Cargo's own lock
protocol.

The library (`src/`) is verified with Verus. It never touches the
filesystem: callers observe directories (names, sizes, kinds, modification
times) and hand the observations over; the library returns plans and
decisions with contracts that say exactly what they are.

- `unit`, `layout`, `discover`: the grammars of unit hashes, fingerprint
  state files, incremental directories, profile layouts and target roots.
- `identity`, `order`: keep-newest-per-identity, proved to keep exactly one
  member (the newest) of every identity.
- `scan`, `legacy`, `v2`: the deletion plan of a profile and its tier
  estimates; fail-open (unparsed entries are kept) and fail-closed (an
  unknown layout plans nothing).
- `budget`: which target directories to sweep under a global byte budget.
- `sweep`, `fsinfo`: the sweep's refusals, skips, accounting and retry rule.
- `registry`, `beacon`, `config`, `schedule`: the project registry, the
  registry line a build script appends, the machine configuration and the
  scheduler integration texts.

`app/` is the `cargo targone` command line: it walks directories, takes the
locks, deletes, writes the audit log and prints reports, around the library.
