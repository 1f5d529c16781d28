# seamless_tiler

Renderer-independent foundations for two-dimensional tiling, with Wave Function Collapse
and the logic of a tile editor, written in Verus and verified.

- `src/` is the verified library: grids and coordinates (`grid`, `spatial`), square and hex
  topologies (`topology`), the dihedral symmetries of both cell shapes (`transform`), tiles
  and sockets (`tile`), the WFC solver (`wfc`), tile rasters (`raster`), edge families and
  linked edits (`seams`), and the editor's pin, tool and catalog rules (`editor`).
- `tests/` exercises the library.
- `app/` is the egui editor around the library: drawing, pointer input, and the
  floating-point parts (weighted entropy and observation, procedural demo pictures, hex
  stroke interpolation).

Collections keyed by library structs (edge strips, tile samples, coordinates, oriented tile
ids) are vectors searched by verified loops (`edge_families`, `EdgeLinkIndex`,
`plan_edge_copy`, `variant_remap`): vstd's `HashMap` contract holds only for key types
whose hashing and equality it models, and it models none of these structs. Where the key is
an integer, the library uses `std::collections::HashMap` under vstd's contract: the edge-link
index groups union-find roots into components through a `HashMap<usize, usize>`.
