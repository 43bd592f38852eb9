# summ

A container registry whose decisions are verified with Verus.

`src/` is the library. Everything in it is executable Rust with a contract that
Verus proves: content digests and the binary keys records are stored under, the
metadata engine interface and the queries over it, the plans for putting blobs on
disk and reading them back, and the HTTP surface, from the path grammar to the
headers of every answer. `app/` is the program around it: sockets, files, the
command line and JSON. `tests/` runs the library with its outside crates linked.

| Module | What it holds |
|---|---|
| `bytes`, `text`, `table` | byte order, text helpers, ordered tables |
| `digest`, `keys`, `types`, `time` | what is stored, and under which key |
| `meta` | the engine interface, ranges and pages, an engine in memory |
| `registry` | deletes, discovery, referrers, pull counts over an engine |
| `storage` | paths, hashers, upload sessions, ranges, streaming reads |
| `server` | routes, handlers, a registry in memory, pull counters, push steps |

## How the contracts are written

Every type has a view, and every result is given as a spec function of the views
of the arguments. A store may fail at any call, so a query over one promises its
answer unless the store says that it failed.

A handler talks to a registry that may answer anything. Its contract therefore
speaks of the *conversation*: what it asks, in which order, and what it makes of
each answer. `server::memory` is a registry whose own contracts say exactly what
each operation answers and leaves behind; `server::memory_laws` states what holds
of it throughout, and `server::wire_laws` what a client can rely on from one request
to the next.

Laws that relate several functions stand beside them as public proof functions
with names that say what they promise, such as `resuming_a_scan_continues_it`,
`a_link_asks_for_the_next_page`, `pages_show_every_referrer_once`, `flushes_add_up` or
`bytes_land_before_metadata`.

## What is believed without proof

The contracts of a few wrappers round `sha2`, `postcard`, `serde_json`, `uuid`,
`axum`'s header values and the standard library. Each stands in one place, with a
comment that says what it claims.

What is proved of a handler over a registry from outside `src/` rests on that
registry keeping to the traits of `server::seam`. `Discovery`, which the web pages
ask, has no implementation in `src/`.
