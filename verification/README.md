# activemq

STOMP 1.2 as `ActiveMQ` Classic and Artemis speak it: a client, one client's
worth of broker, and the transport that sends and receives through them.

`src/` is the protocol, verified with Verus and free of I/O.

- `frame`, `reading`: frames to bytes and back.
- `client`, `session`: the two sides of a conversation. Each takes frames and
  gives back the bytes to write.
- `transport`: one Location's settings, what a send target names, and what a
  receiver does with what it is given.
- `frame_laws`, `session_laws`, `run_laws`, `conversation_laws`,
  `transport_laws`: what holds of the pieces together, such as that a frame
  reads back as it was written and that what one session holds the next
  delivers in order.

`app/` puts the protocol on TCP sockets, with the `transport` crate's sockets,
error classes and traits. `tests/` runs both sides against each other in
memory.
