# hashit

A verified library for keeping track of files by their content: manifests of file hashes in
every directory, metadata by content hash, comparing, deduplicating and syncing trees, a
drive-aware index, and a search index with a query language.

`src/` is the library, verified with Verus. It decides and computes, and touches
neither disk nor network; three small calls read the time, the time zone and random ids.
`app/` is the program around it: the command line, files, databases, watchers and services. `tests/` run the
library with its outside crates linked.

## Modules

| Module | What it holds |
|--------|---------------|
| `text`, `number`, `order`, `textmap`, `paths`, `pathmap` | texts, decimal numbers, stable orders, ordered maps and sets, slash-separated paths, maps and sets of paths |
| `civil` | the calendar: dates, day numbers, month arithmetic |
| `hash`, `manifest`, `scan`, `walk` | content hashes, the manifest of a directory, what a scan makes of it, the files under a root |
| `inventory`, `diff`, `dedup`, `sync`, `fileops` | reports, differences, duplicates, copies of what is missing, cp/mv/rm |
| `meta`, `extract`, `meta_pass`, `metacmd` | metadata by content, reading it, making what is missing, editing it |
| `sql`, `statements` | SQL text with bound values, and the statements that read and change rows |
| `drive`, `store`, `index`, `api`, `serve` | the drive-aware index, filling it, and the HTTP service's decisions |
| `query`, `index_store`, `search`, `watcher` | the query language, the search index, the search service, and keeping it fresh |
| `watch`, `rpc`, `options`, `command` | what changes touch, the file operation service, options and commands |

Texts are sequences of characters, maps and sets are mathematical maps and sets, and SQL is
text with bound values. Public proof functions whose names begin with `law_` state what holds
across functions.

## What is trusted

Calls into outside crates stand behind small functions that say what is believed of them:
BLAKE3, SHA-256 and hexadecimal text in `hash`; glob patterns in `scan`; dates, month
arithmetic, the local UTC offset and RFC 3339 in `civil`, `manifest` and `search`; random ids
in `drive`. In `text`, appending a character to a `String` is believed to do just that.
