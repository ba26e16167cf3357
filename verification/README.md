# maze_wars

A multiplayer first-person maze shooter over UDP.

- `src/` is the verified library: maze grids and their invariants, maze
  generation (a randomized backtracker, then braiding) and validation, the
  level table and the client's level bookkeeping, the reliable-event layer,
  join decisions and the server's per-player records, the remote-player
  registry, the server tick's integer rules, the kill feed, player names and
  the join handshake schedule. Every function carries a contract that
  Verus proves.
- Maze generation draws from a seeded ChaCha8 stream (`maze_rng`). What the
  stream hands out is named as a function of the seed and of how many words
  were drawn before, so `generate` is proved to be a function of its spec:
  the walls it returns are `maze_walls(spec)`, the backtracker and the
  braiding pass written out step by step over those names.
- `tests/` exercises the library on concrete values.
- `app/` is the program around it: the wire encoding, sockets and threads,
  the window and its drawing, and the floating-point geometry (movement,
  collision, hitscan, raycasting, interpolation, prediction). Run it as
  `client` (the default), `server [bind_addr]` or
  `bots <server_addr> <count> [secs]`.
