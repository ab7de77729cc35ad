# osmflat-capi

Bounding-box queries over osmflat archives, for a mapnik datasource plugin. The
query logic is verified with Verus; a thin layer around it provides the C ABI.

- `src/` is the library. `archive` reads the archive and is where the `osmflat`
  crate is called; every item there that Verus takes on trust names the function
  it calls. `select`, `members`, `tags`, `feature`, `land`, `order` and `query` turn
  a query into features, `featureset` is the cursor over them, `simplify` decides
  which vertices of a line stay, and `open` decides how an archive is opened.
- `app/` holds the C ABI, the files and the sidecar, and floating-point geometry.
- `tests/` runs the library, on archives that are built in memory.

Coordinates and areas pass through the library as IEEE 754 bit patterns. They are
compared there (`ieee`) and computed in `app/`. A query therefore has two steps:
`plan_query` selects the primitives and drafts their features, and `osmflat_query`
completes the drafts with the measured geometry.
