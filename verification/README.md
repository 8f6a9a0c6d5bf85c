# Data Inspector

A local-first GNOME utility for inspecting JSON, CSV and TSV files, built
around a library whose logic is proved with Verus.

## Layout

- `src/` — the verified library.
  - `text.rs`: character-level helpers (Unicode white space and trimming,
    ASCII case folding, decimal rendering, substring search, truncation).
  - `number.rs`: the syntax `f64::from_str` accepts, recognised without
    floating point.
  - `csv_read.rs`: reading records through the `csv` crate, delimiter scores
    and delimiter detection.
  - `document.rs`: UTF-8 decoding, byte order marks, formats by extension,
    header detection, loading tables, the header override, parsing and
    loading JSON documents through `serde_json`.
  - `json.rs`: the JSON tree and its node count and depth.
  - `tree.rs`: the rows of the structured JSON view (labels, paths, pointers,
    summaries, expansion and search) and the text copied for a value.
  - `pointer.rs`: JSON pointer lookup, and the proof that every row's pointer
    addresses the value the row describes.
  - `table.rs`: the table view (cell types, column widths, search, sorting,
    copied rows and columns).
  - `state.rs`: the session state and what each user action does to it.
- `tests/` — tests of the library.
- `app/` — the GTK4/libadwaita program: windows and widgets, file reading,
  and the few computations done in floating point (file sizes, the numeric
  order used when sorting).
