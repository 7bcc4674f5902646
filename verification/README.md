# udp_hole_punching

A small framework for peer-to-peer messaging over UDP with hole punching: a
swap server pairs a callee and a caller by an id and tells each the public
address of the other; the clients then exchange messages directly, cut into
packets that are acknowledged, resent while unacknowledged and put back
together on arrival.

## Layout

- `src/` is the library, verified with Verus. It holds the wire formats
  (packets, server frames, the hole-punching reply), the cutting and
  reassembly of messages, the stores' logic (what to keep, what to resend,
  when a message can be read and what reading it removes), the matching on the
  servers and the decisions a client takes on each datagram. Each public
  function states its result in its contract; the `lemma_*` proof functions
  state the properties that hold across calls (a message cut into packets is
  read back whole whatever order the packets arrive in, a frame reads back as
  what was framed, a registered callee is found, a resent packet never goes
  beyond the retry limit, ...).
- `app/` is the program around it: sockets, the on-disk stores (sled), the
  serialization of packets and keys (serde, bincode), the process-wide
  settings and the event loops. It calls the library for every decision.
- `tests/` runs the library on concrete values.
