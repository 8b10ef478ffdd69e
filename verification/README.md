# shoal

Self-hosted sync server for local-first apps. The server stores an append-only
log of encrypted operations per user and hands them back in order. Clients
merge; the server only stores and orders ciphertext.

The rules of the server are a library verified with Verus (`src/`). Around it
stands a thin program (`app/`) that speaks HTTP and keeps the log in a SQLite
file.

| Module | What it holds |
|--------|---------------|
| `log` | The model: what each user has stored, and what a push, a pull and a compaction make of it |
| `db` | The store, with the operations that clients ask for |
| `migrate` | Bringing an older file up to the current layout |
| `payload` | Payloads between base64 text and bytes |
| `auth` | Signed requests |
| `settings` | What an operator sets: limits, allowed keys, allowed origins |
| `rate`, `streams`, `pokes`, `table` | The bookkeeping per public key |
| `server` | What each request is answered |
| `laws` | What holds whatever clients ask for |
| `text` | Comparing, trimming, splitting, reading and writing text |

A request that writes is handled in two steps. The library works out the answer
and what is to be written, the program writes it in one transaction, and the
library takes it in once it is written.

## Configuration

| Variable | Default | Meaning |
|----------|---------|---------|
| `SHOAL_DB` | `shoal.db` | SQLite path |
| `SHOAL_BIND` | `0.0.0.0:7420` | Listen address |
| `SHOAL_RATE_PER_MIN` | `120` | Authenticated requests per user per minute |
| `SHOAL_MAX_OPS_PER_USER` | `1000000` | Stored ops per user; pushes past it get 507 |
| `SHOAL_MAX_USERS` | `0` | Users the server will create; 0 is no limit |
| `SHOAL_MAX_TOTAL_OPS` | `0` | Stored ops of all users; 0 is no limit |
| `SHOAL_MAX_STREAMS_PER_USER` | `8` | Poke streams one user may hold open |
| `SHOAL_MAX_PAYLOAD_BYTES` | `262144` | Largest payload, decoded |
| `SHOAL_ALLOWED_PUBKEYS` | | Keys that are served, separated by commas; none named serves all |
| `SHOAL_ALLOWED_ORIGINS` | `*` | Origins that browsers may call from |
