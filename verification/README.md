# bip110-crawler

Crawls the Bitcoin peer-to-peer network from your own node and reports which implementations and
versions run there, and where they stand on BIP-110.

- `src/` is the library, in Rust verified with Verus: the wire protocol, the state of a crawl and
  of a probe, classification of user agents, the reading of the own node's answers, what the
  database keeps of nodes and blocks, the pages of the report, and what a request to the server is
  answered. Contracts say what each function returns; proof functions named `law_...` state what
  holds across functions.
- `app/` is the program around it: command line, sockets, threads, HTTP, SQLite, files and JSON.
  It reads the texts of the pages from `web/` and `assets/` in the working directory.
- `tests/` runs the library on concrete values, with the crates that it calls.

What is believed without proof are the items marked as external in `src/`: the digests of `sha2`
and `sha3`, the random nonce of `rand`, the JSON text of `serde_json`, and from the standard
library lower-casing, lossy UTF-8, the clock and appending a character to a string.
