# rkv

A distributed key-value store in the manner of Dynamo, with its rules stated as
contracts and proved with Verus: consistent hashing, tunable quorum
replication, vector-clock versioning, gossip for membership and failure
detection, and storage that recovers from a log and snapshots.

## Layout

- `src/` is the verified library.
  - `storage/`: vector clocks, versioned values and the sorted table
    (`memtable`), the write-ahead log (`wal`), snapshot files (`snapshot`) and
    the engine that recovers from both (`engine`).
  - `ring/`: the hash ring with virtual nodes.
  - `replication/`: quorums and the coordination of reads and writes.
  - `gossip/`: what a node knows of its peers, and the failure detector.
  - `grpc/`: the messages, and what the services answer.
  - `text`, `str_map`, `seqs`: strings, the ordered map and sequences.
  - `digest`, `wall_clock`, `gossip/chance`: the calls into `crc32fast`, `sha2`,
    `chrono` and `rand`.
  - Files named `*_laws.rs` hold what is proved across several operations.
- `app/` is the program around it: `rkv server` and `rkv cli`.
- `tests/` runs the library.

## How the library and the program meet

The library does no I/O. A write is a step that makes a numbered log entry and a
second step, `commit`, once the entry stands in the log file. A coordinated read
or write is a step that says what to send to which peers, and a last step that
makes the result from what came back. Times that decide something can be passed
in: a function that reads the clock has a sibling whose name ends in `_at`.
