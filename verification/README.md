# ezagent

The engine core of the ezagent protocol bus, written in Verus: every
function under `src/` carries a `requires`/`ensures` contract that Verus
proves, and the laws the engine relies on are stated and proved as public
proof functions.

## Layout

- `src/` — the verified library.
  - `registry/` — datatype declarations, the registry, and dependency
    resolution into a topological load order (with the cycle that blocks it).
  - `hooks/` — hook declarations and contexts, and the executor: which hooks
    fire, in which order (priority, dependency rank, source, registration;
    the signing hook last in pre-send), and what a run of them does.
  - `builtins/` — the identity, room, timeline and message datatypes and
    their hooks: membership and power checks, ref generation, timeline
    sharding and pagination, content references, envelope inputs, public
    key cache, signature timestamps.
  - `store.rs`, `persistence.rs` — the in-memory store of rooms, messages,
    refs and annotations; pending-update bookkeeping and snapshot decisions
    of the persistent store.
  - `uri_registry.rs`, `sync.rs`, `index.rs`, `annotation.rs`,
    `channels.rs`, `events.rs` — URI routing, sync decisions and the pending
    queue, index refresh, annotation keys, channel tags, event helpers.
  - `ext_api/`, `loader.rs` — extension manifests, registration contexts,
    API-version filtering, extension load order and the load plan.
  - `engine.rs`, `config.rs`, `cli/` — the engine facade, configuration
    and port resolution, and the command-line helpers (output, exit codes,
    URI parsing, message windows, event lines).
- `tests/` — tests of the library, run against the real outside crates.
- `app/` — the `ezagent` program: argument handling, files, dynamic
  libraries, CRDT documents (yrs), the RocksDB store, zenoh networking, JSON
  and TOML conversion and the event stream, calling into the library for
  every decision.

The few functions whose contracts Verus takes on trust — the calls into
`sha2`, `uuid`, `ulid`, the clocks, `String::push` and `str::to_lowercase` —
are marked `#[verifier::external_body]` and documented where they stand.
