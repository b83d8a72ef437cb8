# keith_shareit

Peer-to-peer sharing of files and directories between a desktop, which
browses a directory in a terminal interface and picks what to send, and a
phone, which receives passively and logs what it does. Peers find each other
over mDNS (or connect with a ticket), and blobs move with `iroh-blobs`.

The library under `src/` is verified with Verus. It holds the decisions and
the data handling of the program:

- `frontend/app.rs`: the interface's state machine (keys, pastes, backend
  events) and the effects it asks for;
- `frontend/log.rs`: word wrapping, layout and scrolling of the log pane;
- `frontend/tree.rs`: the library tree built from walked paths;
- `frontend/tui.rs`: the geometry of the ticket prompt;
- `backend/store.rs`: names of imported files, their order, export paths,
  and the store's directory name;
- `backend/sender.rs`, `backend/receiver.rs`, `backend/endpoint.rs`:
  the steps of the sender and receiver loops and of peer discovery, the
  closing handshake and download progress;
- `backend/ticket.rs`, `backend/direct.rs`: the peer a ticket's text names,
  the ticket flow, and a peer identifier read from a file;
- `backend/secret.rs`: the stored key's bytes;
- `text.rs`, `encoding.rs`: splitting and joining text, lower-case
  hexadecimal.

`app/` is the program around it: the command line, the terminal, the Iroh
endpoint, connections, the blob store on disk and the event loops, each
asking the library what to do next. `tests/` runs the library on concrete
values.
