# triactory

Grid math and map generation for a territory-control game played on a grid of
triangles, with the behaviour of the library's functions stated as Verus contracts and
proved. The floating-point terrain work lives in `app/` and is not verified.

## Layout

- `src/grid` — lane coordinates (`TriCoord`), edge neighbors, lane distance, the
  hexagonal board (`hexagon_tiles`) and breadth-first neighborhoods (`tiles_within`).
  Laws: distance is a metric and equals the fewest edge crossings, adjacency is
  symmetric, the hexagon is connected and laid out row by row.
- `src/map` — the generation pipeline after terrain: board sizing, Biome Town placement
  by greedy farthest-point sampling, land forced under towns and lone land tiles,
  starting towers, the ring-by-ring territory spread, the nearest-tower fallback and one
  biome per player (`board_coords`, `populate`).
- `src/mapgen.rs` — the terrain-free generator (a hexagon of `Field` tiles).
- `src/protocol.rs`, `src/world_model.rs` — the messages a server sends and the client's
  memory of them.
- `src/components`, `src/game`, `src/states.rs`, `src/config.rs` — shared vocabulary:
  terrain, biomes and their colors, map types, app states, tuning constants.
- `app/` — a headless command-line generator around the library: noise terrain,
  falloff shapes and other floating-point work, the wire forms of the messages, and I/O.
- `tests/` — tests run against the compiled library.

Random choices come from one seeded ChaCha8 stream per pipeline stage (`rng_for`). The
contracts name what each draw returns (`chacha8_draw_index`, `chacha8_shuffle`) and say
which stream every choice is drawn from, so a generated map is a function of its player
count, seed, town count and terrain (`generated_from`, `lemma_generation_is_deterministic`).
What ChaCha8 actually produces is not stated: the names stand for it.
