# amethystate

The decisions behind a state manager's store, written in Verus and proved
against their contracts.

- `src/` is the library. Every function in it is verified; the only trusted
  items are the wrappers in `files.rs` around `xxhash_rust`'s XXH3 hashes and
  `uuid`'s random v4 identifier.
  - `path`, `text`, `filename`: store paths, name order, file names.
  - `meta`, `moved`, `moved_laws`, `declared`, `check`, `instances`: what a
    struct declares, what changed since it was recorded, and what the
    declarations say about a path.
  - `owners`, `places`: who may write where.
  - `document`, `levels`, `laying`, `changes`: a text document's tree, how a
    path is read, written and taken out of it, how a save lays this store's
    writes over a file edited outside, and the changes a write or a new
    reading of the file tells subscribers of, and where an undeclared path is
    written as one whole key at the root.
  - `reactive`: what a reactive field starts on and does with each change,
    and how a reactive map's cache moves with each change.
  - `buffer`, `overlay`, `memory`: writes not yet saved, how a read sees them,
    and the store that keeps everything in memory.
  - `format`, `builder`, `opening`: the facts a store keeps about its own
    bytes, the engines, and what opening does with a file that will not read.
  - `debouncer`, `watching`, `commits`, `closing`, `events`, `saving`,
    `migrating`, `files`: the background writer, outside edits, durable
    waits, closing, subscribers, saves of a text document, the two-file write
    of an open and the order of its steps, and the temporaries a writer leaves.
- `tests/` runs the library on concrete values.
- `app/` holds what needs the file system, threads, logging or derives of
  outside crates: locating the store's directory, sweeping leftovers, the
  debouncer's thread, and serde copies of the recorded types.

What is not here: the engines themselves. The redb, SQLite and browser
storage engines, the codecs and the store that composes them are file, network
and thread plumbing around the decisions above, and none of them is part of
this crate; `default_backend` names the engine a build defaults to, not one
this crate runs.
