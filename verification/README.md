# relic_chunky

A verified library for Relic Chunky containers and the formats stored in
them: reflection data (`RFTY` schemas, `.rdo` object graphs, compiled
`.bin` containers), game data (`.rgd`), attribute XML, textures (`.rrtex`)
and archive member paths.

Layout:

- `src/` is the library. Every function there is checked by Verus against
  its `requires`/`ensures`; the contracts are stated over spec functions
  and views (`Seq`, `Map`, `int`). Calls into outside crates (flate2, png,
  quick-xml, intel_tex_2) sit behind small `#[verifier::external_body]`
  wrappers whose contracts name or state what those crates return.
  Modules ending in `_laws` hold proof functions that state properties
  across functions (read after write, placement, the `.rdo` writer).
- `tests/` runs the library on concrete values with the real outside
  crates linked.
- `app/` holds what the library leaves to its callers: float text,
  the JSON export of game data (serde), file access. The XML export of
  game data is built in `src/rgd_xml.rs`; only quick-xml's writer sits
  behind a wrapper.
