# systems_lab

Small systems tools whose logic is a Verus-verified library.

- `src/` — the library, verified with Verus:
  - `bencode`, `sha1`, `torrent`, `tracker`, `wire`, `peer_state`, `download`:
    BitTorrent metadata, tracker URLs and replies, the peer wire protocol, peer
    state, and a piece download as a state machine driven by its caller;
  - `query`, `statement`: an in-memory table with a sorted-leaf primary index
    and the statement grammar;
  - `wal`: length-prefixed log framing shared by the key-value store and the
    task queue;
  - `kv`: the key-value store (entries in a `DashMap`);
  - `task_queue`: idempotent enqueueing, leases, acknowledgement, failure,
    requeueing and replay;
  - `logs`, `scrape`, `text`: log summaries, scraped page results, and text
    helpers.
- `tests/` — tests run against the compiled library with the real outside crates.
- `app/` — the command-line program: argument parsing, files, sockets, HTTP,
  channels and printing around the library.
