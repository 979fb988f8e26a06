# ta_reborn

A small real-time strategy game played in deterministic lockstep: every client runs the
same fixed-point simulation on the same turns, and a relay server only collects and
forwards commands.

Layout:

- `src/` — the verified library.
  - `fixed.rs`: Q32.32 fixed-point numbers and vectors.
  - `terrain.rs`: seeded value-noise height map and bilinear height queries.
  - `sim.rs`: units, commands, movement, formations and the state checksum.
  - `protocol.rs`: messages between clients and the relay.
  - `lockstep.rs`: turn buffer that feeds the simulation one tick at a time.
  - `relay.rs`: the relay's decisions (handshake, lobby, turns, checksum reports).
  - `menu.rs`: how a client starts a game, solo or after the relay's handshake.
  - `selection.rs`: which units the player may select, and the orders given to them.
  - `scene.rs`: the triangle layout of the terrain mesh.
  - `session.rs`: the client's decisions while a game runs.
- `tests/` — tests of the library.
- `app/` — what the library leaves out: the relay server program (sockets, tasks, timers,
  the wire encoding), and the client's parts that need no graphics but compute in
  floating point or handle text (the real-time frame loop around `Session`, the menu's
  status lines, conversions between `Fx` and `f32`). The graphical client itself, which
  needs bevy, is not part of this crate.
