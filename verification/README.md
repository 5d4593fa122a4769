# pixelview

The logic of a pixel-art / ANSI-art viewer, written in Verus: the library's
functions in `src/` carry `requires` / `ensures` contracts that Verus proves;
the few calls into `std` and outside crates stand behind trusted wrappers whose
contracts say what those crates do.

Layout:

- `src/` — the verified library
  - `text`, `paths`, `order`, `format`: character-sequence helpers, `Path`-style
    file-name arithmetic, natural ordering keys, and number / date / size labels
    (with the calendar round trip and the "date labels sort chronologically" law).
  - `browse`, `captions`, `filetypes`, `nav`, `smart`, `search`, `filters`: the
    file browser — sorting and filtering the grid, table and caption text, file-type
    rules, selection and history navigation, the search form, smart filters and
    saved searches; `preview` walks a folder for its tile's preview images.
  - `raster`, `pixels`, `tiles`, `anim`, `playback`: image arithmetic — the baud
    "type-out" reveal, nearest-neighbour resampling, tiling, per-pixel operations,
    GIF frame timing and the playback cursor.
  - `archive`, `cache`, `colo_thumb`, `scene`, `ops`, `picks`: archive member
    extraction (PAK / WAD, and other formats through unarc-rs) and zip-slip-safe
    paths, the download cache's keys and
    eviction, the remote-thumbnail queue and decode, scene-listing helpers, the adjustment
    pipeline order, and random picks.
- `tests/` — tests run against the compiled library.
- `app/` — the unverified shell: file-system and network I/O, SQLite, threads,
  and the floating-point work (colour adjustments, texture and thumbnail scale
  factors).
