# vectlite

An embedded vector store: records with dense, named, sparse and token vectors and with metadata,
kept in one file with a write-ahead log beside it.

The library in `src/` is verified with Verus. It decides everything that can be decided without
floating point and without files: the file and log formats, which writes are accepted and what they
change, filters and payload indexes, the bookkeeping of neighbour graphs and quantized indexes, how a
search is planned, which records it scores and how scores become results, and the documents of the
bindings.

Floating-point numbers are bit patterns here (`u32` and `u64`). What is computed with them is handed
in: a caller scores the keys that a search names and gives the scores back.

Writes take two steps. A write method checks a request and returns a `Change` with the bytes for the
log; once these are in the log, `commit` applies the change and says what is left to do to the graphs
and the quantized indexes.

- `src/` the library
- `tests/` its tests
- `app/` the command line, the files and locks, the floating-point scores, the graphs of `hnsw_rs`
  and the bindings for Node.js, Python and generated foreign languages
