# johnnybt-polars

The hot paths of johnnybt in Rust, verified with Verus.

- `src/` is the library. Every function in it is verified against its contract;
  what it takes on trust from other crates stands behind a few wrappers, each
  with a comment that says what is trusted.
  - `loader` turns the bytes of GB18030 CSV files into typed columns, aligns
    them by name and merges them, chunk by chunk.
  - `io` reads a caller's schema.
  - `calendar` counts days and quarters.
  - `expressions` expands a company's filings into vintages.
  - `scatter` writes a long column onto a dense grid.
  - The modules whose names end in `_laws` state and prove what holds of the
    library as a whole.
- `tests/` runs the library.
- `app/` is the Python extension around it: file reading, the conversion to
  arrow and polars, and the plugin entry points.

Floating-point values are carried through the library unread, by their numerals
or their bits; `app/` turns them into numbers.
