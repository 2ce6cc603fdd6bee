# openpaint

The engine core and the panel workspace of a paint program, written in Rust and verified with Verus.

- `src/` is the library. Every function has a contract over mathematical models: maps from tile
  coordinates to tiles, sequences of pages and layers, trees of panels. Proof functions whose names
  begin with `law_` state what holds across several of them.
- `app/` is ordinary Rust around it: files, drawing, and arithmetic on real numbers.
- `tests/` runs the library.

Three conventions run through the library.

- Real-valued settings are carried as the bit patterns of single-precision numbers. The library
  compares, clamps and stores them exactly; adding and multiplying them is handed in as functions,
  and contracts speak of what those functions answer. Laws on what the arithmetic comes to speak of
  the real numbers that the patterns stand for, and of how far an answer may be rounded.
- Lengths on the screen are whole numbers of 256ths of a pixel.
- A gesture in flight is followed by the program. On a frame that no pick and no open list takes, the
  workspace asks it one question and is verified for every answer; what a frame draws comes out as a
  list of things to draw.
