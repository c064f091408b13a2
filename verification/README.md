# base

The engine core of a small networked game, verified with Verus.

`src/` is the verified library:

- `handle`, `flags`, `entities` — entity handles (index and generation packed
  in 32 bits), input and entity flag sets, and the generational entity list
  with its think list.
- `packet`, `reliable`, `sizing`, `ingress` — the datagram protocol: packet
  kinds, splitting messages into reliable parts or fragments, the reliable
  channel (queueing, send window, retransmission timeout, acknowledgements,
  duplicate tracking), packing parts into datagrams, and reassembling batched
  world snapshots and tick states.
- `server`, `link`, `world` — the per-client state the server keeps, the
  handshake decisions of both ends, and how the client keeps its world in step
  with the server's connection generation.
- `usermessage`, `stringtable`, `bytes` — script user messages (little-endian
  writer and reader), the name table, and the byte encoding they rest on.

`app/` is the program around it: the window and renderer, the Lua scripting,
sockets and threads, and the wire encoding of events and packets.
