# wal_server

A replicated write-ahead log server. Clients append records to streams, read
them back and acknowledge them; a raft group replicates every append before it
is answered, and each replica keeps the records in segment files.

The logic is a library in `src/`, verified with Verus: the wire protocol, the
record and segment formats, recovery, the state of the streams, epoch fencing,
the decisions of a shard, the raft log and its file, message framing, CPU
placement and configuration. Each function's contract says what it returns or
changes; the `law_` proof functions state what holds across functions, such as
that a written record is read back, that a stream which is not consumed for too
long can be given up when it keeps segment files from being removed, and that
garbage collection removes no record of any other stream that is still to be
consumed.

What the library takes from other crates stands behind small items whose
contracts are trusted: checksums (`crc32fast`), hashes (`xxhash-rust`), shared
buffers (`bytes`), the protobuf encoding of raft messages (`raft`, `protobuf`),
and the clocks of the standard library.

`app/` is the program around it: sockets, files, threads, the raft state machine
and the command lines of the server, its client and its benchmarks. `tests/`
runs the library on concrete values.
