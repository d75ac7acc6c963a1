# amoeba_rl

A roguelike in which you play a giant, evolving amoeba: engulf and digest the
humans sent against you, craft organelles and cores from what they leave
behind, and break the city gates to escape to the surface.

The whole game is a deterministic library, verified with Verus:

- `src/sim.rs` and `src/sim/` hold the world: the map grid and its field of
  view, the actor and item arenas, the turn schedule, map generation, the
  player's mass and everything it can do, the humans' duties and intents, the
  gates and their waves, the message log and the per-frame view. Public
  functions state their behaviour in `requires`/`ensures` contracts, and
  properties that span several calls are stated and proved as `law_*` proof
  functions.
- `src/synth.rs` frames sound samples as WAV bytes; `src/tileset.rs` locates
  glyphs in the tile atlas.
- `app/` is the frontend that cannot be verified: the window, drawing and
  input (macroquad), and the floating-point synthesis of the sound effects.
- `tests/` runs the library on concrete situations.

One call of `Sim::advance` is one turn: a command that does not end the turn
leaves the world where it was, and one that does comes back with every other
actor's turn already taken, waiting on you again.
