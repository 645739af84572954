# rendezvous

A rendezvous service for peer-to-peer file syncing. Clients connect to the
rendezvous server over TCP, announce themselves with a `ConnectClient`
command (one JSON message per line) and receive a `ClientConnected` event
that lists the other connected clients; clients keep a directory of the peers
they learn about.

- `src/` is the verified library: the messages, the server's registry and
  broker decisions, the per-connection line reader, the client's session
  decisions, the peer directory, the peer broker, line framing and addressed
  lines. Every function there carries a contract proved by Verus, and the
  laws that relate them are proof functions beside them.
- `app/` is the program around it: sockets, tasks and channels (async-std and
  futures), JSON (serde, serde_json) and logging (log, log4rs). Run it with
  `server` (the default) or `client` as its argument; it reads its logging
  setup from `config/log4rs.yaml`.
- `tests/` runs the library on concrete values.
