# bohay

A verified library for the text and layout rules of the `bohay` terminal
workspace: the inline markdown of release notes, the update check's version
comparison, the cost model's model families and context windows, theme
installation rules, and the geometry of its modals and tables.

- `src/` is the library, checked by Verus: `text` (characters, whitespace,
  trimming, searching), `changelog` (inline markdown and line classification),
  `notes` (word wrapping and the changelog view's lines), `update` (versions and
  the release manifest), `pricing` (model families, windows, overrides),
  `theme` (IDs, sources, destinations, digests, dependents, the starter file)
  and `layout` (rectangles, modal sizes, scrolling, row columns).
- `tests/` runs the library on concrete inputs.
- `app/` holds the I/O around it: the background update check; downloading,
  confirming, atomically writing and recording theme files, writing a starter
  theme and listing a parent's dependents on disk; the floating-point cost
  estimates; and ratatui conversions and cell-level drawing helpers (backdrop,
  rules, row highlight, scrollbar, styled note lines). The full install,
  uninstall and screen-drawing routines are not here: they rest on theme
  registry, configuration and screen modules that this project does not
  include.

Outside crates: `serde_json` and `sha2` are called from `src/` through small
trusted wrappers; `anyhow`, `serde` and `ratatui` are used in `app/`.
`unicode-width` measures the display width that word wrapping packs lines by;
the screen module whose width helper the wrapping relies on is not part of this
project, and `unicode-width` is the crate that computes terminal display
widths (it is also what ratatui measures spans with). `toml` is used by a test
only.
