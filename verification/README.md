# KiCase

KiCase designs simple enclosures from a KiCad PCB. You draw the enclosure on
KiCad user layers: the case outline, side datums, cutouts, holes through the
lid or floor, and added solids. KiCase reads the board document, works out
what every drawn shape means, and keeps the project settings in
`.enclosure/enclosure.toml` beside the board.

This crate is the part of KiCase that decides things, written in Verus with
each function's contract proved:

- `src/sexpr.rs` reads KiCad's s-expression documents, either whole or
  selectively (only the items an enclosure needs, skipping tracks, vias and
  zones without building them).
- `src/selective.rs` proves that, on documents written the way KiCad writes
  boards, the selective read keeps exactly what a full read gives, and that
  when it skips nothing it notes exactly the layers a full read names.
- `src/writing.rs` proves that a value written out as text reads back as
  itself.
- `src/board.rs` reads the layer table, records which layers carry objects,
  classifies the drawn graphics by the layer they are on, and answers the
  questions asked of footprints, pads and models.
- `src/layers.rs` maps user layer ids to names and back, and chooses the six
  user layers the enclosure claims.
- `src/model.rs` resolves the project's entries against the board in build
  order: whether the board has both outlines, whether each datum is still a
  line on its layer, what each drawn shape becomes, and which entries have
  lost their graphic, with the warnings in the order they are raised. It
  also decides whether a graphic suits a new entry.
- `src/config.rs`, `src/paths.rs`, `src/model_paths.rs`, `src/report.rs`,
  `src/designer.rs`, `src/watcher.rs` and `src/rename.rs` hold the project
  file's entries and their checks, output paths, model path variables, what
  is reported, when the board changed, and naming layers through KiCad's
  Python.

`app/` is the command-line program around the library: file access, the
project file's TOML format, printing, and the polling loop that watches a
saved board for changes. The B-rep geometry (profiles,
booleans, STEP and STL output) and the designer window work in floating point
and are not part of this crate.
