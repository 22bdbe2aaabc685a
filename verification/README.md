# narad

A SOCKS5 proxy, with a controller that reaches the internet through a node
behind NAT. The protocol logic is a Verus library (`src/`); the programs that do
the network I/O are ordinary Rust (`app/`).

`src/`
- `wire.rs` — the SOCKS5 replies and the connection request.
- `lossy.rs` — lossy UTF-8 decoding of received bytes.
- `credentials.rs` — the username/password check and the `user:pass` argument.
- `decimal.rs`, `port_text.rs`, `ip_text.rs` — ports and IP addresses as the text
  the controller sends to the node, and reading that text back.
- `node_messages.rs` — `node_greeting`, `node_tmp_connect` and `ok`.
- `session.rs` — one client connection to the SOCKS server or the controller, as
  a state machine, with the laws it keeps.
- `node_session.rs` — the node's side of one client connection.
- `echo.rs` — the first TCP server, which answers every message.

`app/` drives these state machines over real sockets (std and tokio), looks up
host names with `dns-lookup`, logs with `chrono` time stamps, and holds the small
HTTP and TCP clients and the GTK window of the node.
