# relay-server

A relay for multiplayer games: clients authenticate with an application
token, create or join rooms, and exchange game data through the relay, which
hands each member of a room a peer identifier.

Layout:

- `src/` is the library, verified with Verus: the wire formats of the packets
  (`protocol`, `packet_type`), peer tables and rooms (`peers`, `room`,
  `game/room`, `relay/room`, `relay/rooms`), the applications and their rooms
  (`game/app`, `relay/apps`), the decisions of the servers (`game/server`,
  `relay/server`, `relay/handlers`, `relay_server`), the reliable channel and
  its frames (`transport`) and the UDP sessions (`udp`). A server takes an
  event and returns the actions to perform; laws about the whole library are
  public proof functions whose names begin with `law_`.
- `app/` is the program around it: configuration files, sockets, HTTP calls,
  timers and the loops that feed events to the library and perform its
  actions.
- `tests/` runs the library on concrete values.
