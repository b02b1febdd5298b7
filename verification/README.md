# redisrs

A Redis-compatible key-value server whose protocol handling and command set
are verified with Verus.

## Layout

- `src/` — the verified library.
  - `text.rs` — character-level helpers: decimal numbers as std reads and
    writes them, prefixes, string building.
  - `db/` — the ordered key-value store the commands work on, with a
    journal of the changes not yet written to disk.
  - `server/protocol.rs` — RESP values, their wire text, and the incremental
    parser over received bytes.
  - `server/connection.rs` — turning a parsed request into a command.
  - `server/parse_laws.rs` — the parser reads back what `to_resp` writes, and
    dropping consumed bytes does not change what it reads next.
  - `commands/` — STRING, LIST, SET, ZSET and HASH commands, each stated as
    a change of the store and a reply.
  - `laws.rs` — what a read gives back after a write, and which commands
    undo others.
- `app/` — the TCP server: sockets, the connection loop, persistence to
  RocksDB under `./redis_data`, and the floating-point score handling of
  sorted sets.
- `tests/` — tests of the library on concrete values.

## Storage layout

Each element is its own key: strings under `s:`, lists under `l:` (with
`:len` and one key per index), sets under `set:`, sorted sets under `z:` and
`zm:`, hashes under `h:`.

## Running

```bash
cargo run --release
redis-cli -p 6379
```
