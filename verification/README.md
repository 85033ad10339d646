# entangle

Makes one local text file editable by several people at once. `entangle share`
puts a file into a room on a WebSocket relay, `entangle join` keeps a local copy
of the room's text. Edits made with any program are merged with a replicated
text (`yrs`), so that peers which have received the same updates hold the same
text.

## The library

`src/` is verified with Verus.

- `differ`: edits that lead from one text to another.
- `crdt`: the replicated text together with the text last known of it.
- `update`: the bytes of an update, as far as they decide whether it is handed
  to `yrs`.
- `ready`: whether a document has what an update builds on.
- `history`: sets of updates, and the orders in which they can be received.
- `replica`: what is used of `yrs`, and what is relied on about it.
- `convergence`: what holds of the documents of several peers.
- `protocol`: the sync messages on the wire.
- `session`: what a peer does with what happens to its file and its connection,
  as a state machine, and the delays between attempts to reconnect.
- `room`: room ids, share links and relay addresses.
- `watcher`, `writer`: which file events matter, and the names of temporary
  files.
- `text`: characters and their UTF-8 bytes.

## The program

`app/` is the command line, the sockets, the timers and the file access around
the library. It hands events to `session::Connection::step` and performs the
actions that come back.
