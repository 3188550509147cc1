# Geoplumb

Pull-based pipelines over rasters, vectors, point clouds and tensors. A graph
of elements negotiates what flows along its links, tiles are pulled from the
sink and cached, and a server hands out map tiles and zonal statistics of its
layers.

The library in `src/` is written in Verus: every public function states what it
does in its contract, and Verus proves it. Numbers are held as bit patterns.
Arithmetic on them, reprojection, the kernels and the writing of JSON are handed
in by the caller, as functions whose results the contracts speak of.

## Layout

- `src/`
  - negotiation: `caps`, `graph`, `solver`, `plug`, `elements`
  - pulls: `window`, `engine`, `cache`, `spill`, `assemble`, `resample`,
    `pyramid`, `sampling`, `reproject`
  - chunks: `chunk`, `chunk_ops`, `geometry`, `fragments`, `dissolve`, `vector`,
    `cutting`
  - elements: `band_math`, `formula`, `bandwise`, `tensor`, `vec_ops`, `composite`,
    `folding`, `strips`, `seams`, `zonal`, `vec_source`, `las_source`
  - catalogues and files: `stac`, `stac_items`, `search_cache`, `cog`,
    `range_cache`
  - the server: `config`, `stages`, `request`, `zones`, `messages`, `encode`
  - ground: `number`, `text`, `time`, `rfc3339`, `json`, `bytes`, `table`,
    `sums`, `ranks`, `error`
  - what holds across functions stands beside them, or in `caps_laws`,
    `solver_laws`, `join_laws`, `cache_laws`, `spill_laws` and `formula_laws`
- `tests/` runs the library on concrete values.
- `app/` is the server around it: input and output, the async runtime,
  floating-point arithmetic, and the raster, geometry, point cloud and
  projection crates.
