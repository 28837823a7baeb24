# Droom Ball Super

A first-person maze shooter drawn by raycasting. The game logic is a library,
`droom_ball`, verified with Verus; a thin program around it opens the window,
plays the sounds and runs the game loop with raylib.

## Layout

- `src/` — the verified library:
  - `grid`, `bfs`, `level`: the maze model, breadth-first exploration, the
    cells reachable from the start, decoding of levels drawn in Braille art,
    and the placement of start and goal at the far ends of the largest open
    region;
  - `sprites`, `combat`, `game`: enemies and hits, placement of enemies and
    pickups, picking up and using switches, and the session's screens, level
    unlocking, health and ammunition;
  - `color`, `framebuffer`, `draw`, `hud`, `textures`, `map_view`,
    `world_renderer`, `caster`: the picture and everything drawn into it by
    whole-pixel arithmetic, texture lookup, the map and minimap, the
    heads-up display, and what a ray finds in each cell it enters.
- `app/` — the program: files, window, input, sound, and the floating-point
  geometry of the first-person view (ray distances, sprite projection,
  movement), which calls the library for every decision on the grid.
- `tests/` — tests of the library on concrete values.

## Design notes

- Breadth-first exploration keeps every cell it reaches in one vector, in
  the order reached, and reads the next cell to expand at a head index. The
  cells before the head have been expanded and those after it wait, so the
  vector serves as the queue, and its whole content is the breadth-first
  order that the contracts speak of.
- `TextureManager` keeps its textures as a vector of `(character, texture)`
  pairs with a verified lookup of the first match. Each contract then speaks
  of the whole character-to-texture mapping, including the fallback to the
  wall texture `'#'`; inserting under a character replaces its texture.
