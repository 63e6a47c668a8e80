# omastorm

Weather overlays for a radar map, in Rust, with the logic verified by Verus.

- Airport observations (METARs) around a radar: a request is checked, the rows of the
  Aviation Weather Center become one report for each station, the stations of a reply
  are picked by distance or by priority, and replies are remembered for ten minutes.
- The European reflectivity mosaic (EUMETNET OPERA): objects are listed by day, the
  newest unseen one is decoded into a frame with an RGBA texture, and earlier ones fill
  the timeline.
- Source selection: a dish that covers the centre of the map wins, or else a mosaic.

## Layout

- `src/` is the library. Every function states what it returns, and Verus proves it.
  Numbers that are binary64 or binary32 on the wire are held as bit patterns
  (`src/ieee.rs`), so that comparing, rounding and classifying them is stated exactly.
  Calls into `chrono`, `xml` and `png` stand behind small trusted functions whose doc
  comments say what is taken on trust.
- `app/` is ordinary Rust around it: HTTP, files, the environment, clocks, tasks, JSON,
  and distances on the sphere.
- `tests/` runs the library on concrete values, with the outside crates linked.

A query or a poll is a sequence of steps: the library says what to load next, the
application loads it and hands the outcome back.

## How far it reaches

- `SourceRegistry::compiled` holds one dish of the polar network, KTLX, and the European
  mosaic. Other dishes are listed in its `sites`.
- The regions in `src/envelope.rs` are five boxes: the contiguous states with Canada,
  Alaska, Hawaii, Guam, and Puerto Rico with the Virgin Islands. They are rough and reach
  over the sea and into neighbouring countries.
- `src/cog.rs` reads little-endian, tiled, uncompressed TIFF files of binary32 samples
  with a model transformation, and the first band of them. Compressed files, other
  sample types, BigTIFF and georeferences by tie points are refused.
- Coverage is a circle or a box; there are no polygons.
