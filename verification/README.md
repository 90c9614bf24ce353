# st-rust

A small Syncthing peer. It announces itself on the local network, accepts
TLS connections from peers, exchanges `Hello` packets, and speaks the framing
of the Block Exchange Protocol.

- `src/` is the library, verified with Verus: device ids and their textual
  form (BASE32, Luhn-32 check characters, dashed groups), the protobuf wire
  format of the messages it exchanges, BEP framing, the local discovery cache
  and packets, the handshake checks, reading certificates and keys from PEM
  text, the check that an LZ4 block can be decoded, and the decisions of the
  connection tasks (dispatching, pings, reading frames, accept back-off).
- `app/` is the program around it: configuration loading, TLS setup, sockets
  and the tokio tasks that perform the I/O the library decides on.
- `tests/` exercises the library on concrete values.
