# cuboid_map

The grid-space map logic of an arena game server, written in Verus and
proved against its contracts.

A map is a grid of cells on one or more storeys, with floors, walls,
barriers, light bridges, ramps, pressure plates and spawn zones. The
library validates a map, puts it in canonical form, checks the tree of
maps nested in it, and compiles the tree, one carrier per map, into
per-storey cell and edge grids, stacked and merged barrier runs, light
bridges merged into rectangles, floor-slab plans, terrain cells, and
resolved plates, items and zones. At run time it decides who holds which
plate and drives the switch state machine from that.

## Layout

- `src/` — the verified library.
  - `schema`, `validation`, `canon`, `nesting`: map definitions, their
    rules, their canonical form, and the nesting tree.
  - `grid`, `edges`, `mask`, `ramps`, `floors`, `segments`: cell and edge
    grids and what is derived from them.
  - `barriers`, `barrier_merge`, `bridges`, `compile`: compiling a map;
    `tree`: the carrier order of a map and the maps it nests, and
    compiling them together.
  - `switches`, `plates`, `pressure_switches`: switches, plates and their
    tick-by-tick state.
  - `tables`, `ids`, `error`, `messages`, `lighting`: names, numbers and
    error texts.
  - `laws`: properties that span several calls or hold for every input.
- `tests/` — tests of the library on concrete maps and inputs.
- `app/` — the unverified edge: reading map files, world-space sizes and
  placement in floating point, the lighting cycle, and the per-tick glue
  between player positions and the plates.

## What is not built here

Face materials, checkpoints, ladders, erasers and grass are read from a map
file but not built: their placement and merging work on world-space
(floating-point) segments. Light-bridge rectangles and carrier records are
compiled in grid space, but their world-space bounds and carrier motion
(positions, nudges) are not produced.
