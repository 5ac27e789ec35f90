# zappy

The game logic of a Zappy server, verified with Verus: the world map and
its resources, players and eggs, the timing of actions, incantations,
ejections and broadcasts, the AI and graphical-client protocols, the
command line, and the host side of the graphical client's plugins.

- `src/` is the verified library. `game.rs` holds the state and its
  invariant (`GameState::wf`); each module states what its operations do
  over spec functions, and the laws that tie operations together are
  public proof functions (`lemma_…`).
- `app/main.rs` is the server program: it reads the command line, owns the
  sockets, polls them and hands what happens to the library.
- `tests/` runs the library on concrete values.

Game time is counted in nanoseconds since the server started; a time unit
lasts one `freq`-th of a second.
