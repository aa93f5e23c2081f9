# edgy_s

The verified core of a WebSocket/HTTP bidirectional RPC framework, written in
Verus, and the asynchronous runtime around it.

- `src/` is the library, checked by Verus: length-prefixed framing of byte
  streams, the RPC packet envelope and request ids, URL query parsing and
  building, header maps, the WebSocket upgrade handshake checks, route
  registries, the tables of calls that wait for their return, the decisions of
  the server and client sessions, and the retry and reconnection policies.
  Each public function states its result in its contract; the laws of the
  library (round trips, read-after-write, chunking independence, ...) are
  public proof functions beside the code they speak of.
- `app/` is ordinary Rust: the service and client built on tokio, hyper and
  tokio-tungstenite, which perform the I/O that the library decides.
- `tests/` runs the library on concrete values.
