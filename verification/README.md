# tauri_plugin_shared_buffer

A shared-memory RPC layer for a Tauri plugin: request and response frames
travel through two byte buffers that host and script both see, and a small
command acts as the doorbell. The frame format, the dispatch of pending
requests to registered methods, and the bookkeeping of buffers and channels
are written in Verus and proved against their contracts.

Layout:

- `src/wire.rs` little-endian words in byte buffers, with the spec of a
  write (`splice`) and the lemmas about reading back what was written.
- `src/frame.rs` the model of the frame area: header words, request and
  response frames, the scan of pending requests and the lookup of a
  response, with the laws that relate them.
- `src/shared_ipc.rs` the executable frame code: initializing a channel
  buffer, writing and reading request and response frames, and answering
  every pending request with a handler.
- `src/store.rs` the store of shared buffers and channels, with ids, method
  registration, reads, writes and dispatch.
- `src/validate.rs`, `src/types.rs`, `src/error.rs`, `src/wide.rs` request
  checks, the command types, errors and their messages, and UTF-16 names.
- `app/` the Tauri plugin around the library: commands, serde copies of the
  command types, the WebView2 glue on Windows, and the DuckDB example.
- `tests/` tests of the library on concrete values.
