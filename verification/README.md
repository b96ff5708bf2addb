# tilemap_gen

Procedural generation of hexagonal board-game maps, verified with Verus.

A map is made in stages, each a type with a contract:

- `TileMap_rawShapeGen` grows a random shape of exactly the map's tile count
  from the centre, each new cell next to enough taken ones;
- `TileMap_shape` fixes that shape, refusing one with holes, and walks round
  its edge;
- `TileMap_props` places ten villages evenly along the edge, artifact slots
  in rings round the centre, and the shuffled artifacts into the slots;
- `TileMap_templates` deals the shuffled terrain tiles onto the shape and
  swaps tiles so that every artifact stands on its own terrain;
- `TileMap` joins templates and props; `try_gen` runs all stages once and
  proves that any map it returns is well generated.

`network_handler` reads method, path and body out of a raw HTTP request,
and `seed` reads a map seed written in hexadecimal.

Layout: `src/` is the verified library (`hex` for coordinates and rings,
`storage` and `random` for the trusted calls into `hexx` and `rand`,
`hexmap` for the stages, `tiles` for tiles and props); `tests/` runs it;
`app/` is the map server and the PNG rendering, which Verus does not see.
