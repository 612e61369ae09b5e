# zelduh (verified library)

A deterministic top-down action-adventure engine in the style of the Game Boy
Zelda games, written in Verus. The library in `src/` carries the engine's
logic with contracts proved by Verus:

- `fixed`, `geom`, `rng`, `tiles`, `level`, `physics`: integer maths, maps and
  collision.
- `entity`, `world`, `player`, `enemy`, `boss`, `objects`, `combat`, `items`,
  `event`, `save`: the simulation, its entity slab and snapshots.
- `gen`: overworld and dungeon generation.
- `assets`: palettes, 2bpp tiles, BMP decoding, ROM scanning, asset packs,
  profiles and loading files into a pack.
- `render`: the framebuffer, cells and sprites, and which image an entity
  shows.
- `server`: JSON scanning, the WebSocket handshake and frames, the topic relay
  and the lockstep session.
- `cli`: PNG encoding and the desktop harness's option reading.

`tests/` exercises the library on concrete values. `app/` is the desktop
harness's `main`: argument handling, files and timing.

## What is not here

- Text drawing (`draw_text`, `draw_text_shadowed`), the HUD (`draw_hud`) and
  the full frame renderer (`render`) are absent: they draw with the bitmap
  font, and the font data is not part of this source tree. For the same
  reason the tile sheet command (`sheet`), which labels each cell with its
  number, is not built.
- The built-in asset pack is absent for the same reason; tests start from
  `AssetPack::empty()`.
- The multiplayer server binary (the tick loop, the HTTP/WebSocket accept
  loop and static file serving) is not part of `app/`. The server's
  decisions (`server::relay`, `server::session`, the handshake and frame
  codecs) are in the library.
