# pullauta

The verified core of a pipeline that turns classified airborne LiDAR into a draft
orienteering map (ISOM 2017-2).

- `src/` is the library, verified with Verus. Its modules:
  - `geometry`: classifications and their layers, point and polyline containers, and
    joining polylines end to end (endpoint tables in `fxmap`, backed by `rustc_hash`).
  - `geojson`: the GeoJSON outputs and the symbol code of every layer.
  - `merge`: grouping tile files by suffix, merging their geometry, contour classes and
    the tile images that take part in the merged maps.
  - `render`: form line dashing, line widths, slope line skipping and overlay
    transparency of the renderer.
  - `vegetation`, `blocks`, `knolls`: the integer rules of those stages.
  - `vege_grid`, `vege_vector`: median filtering and component labelling (by
    `imageproc`), dissolving components below the ISOM minimum area, tracing component
    boundaries into rings and cutting them into chains shared between neighbours;
    `settling` proves that dissolving always settles.
  - `process`: input formats, the text point format, and which stages a tile goes through.
  - `shapes`: the map symbols of topographic shape files, by class code or ISOM code.
  - `text`: character-wise string comparisons.
- `tests/` runs the library on concrete values.
- `app/` is the unverified rest that works on real coordinates, files and serde types:
  GeoJSON and DXF writing, polygon simplification and smoothing, the world file, and the
  drivers that feed the library.
