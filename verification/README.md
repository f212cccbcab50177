# xdremux

The core of a converter from ProXDR photos to ISO 21496-1 HDR photos: HEIF boxes and items,
Exif and maker notes, vendor tails, gain-map tiles, HEVC byte streams and Live Photos.

- `src/` is the library. Every function has a contract, and Verus proves it. The proofs rest
  on what is said, and believed, of five calls that leave the library: of the standard
  library in `text::utf8_text`, `text::replace_invalid` and `text::to_unicode_upper`, of
  `serde_json` in `report::quote` and of `jpeg-decoder` in `jpeg_decode::decode_jpeg`. The
  doc comment above each says what is taken for granted, and three spec functions without a
  body name results that take pages to state.
  The modules whose names end in `laws`, and `round_trip` and `reopened`, state what holds of
  several functions together: what is read back of what was written.
- `tests/` runs the library on concrete files.
- `app/` is the C interface and what surrounds the library: files, the environment, sessions
  of the x265 encoder, the HEIF decoder, whose panics are caught there, and floating-point
  arithmetic. Components that are linked beside the core are reached through the trait in
  `app/tools.rs`.
