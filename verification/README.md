# mystic_draw

A library for ANSI art pictures, verified with Verus: the picture model
(buffers, layers of DOS character cells, palettes, fonts), the readers and
writers of the file formats (ANSI, ASCII, Avatar, PCBoard, iCE Draw, Artworx,
BIN, XBin, TundraDraw and the Mystic Draw format), SAUCE records, TheDraw
fonts, and an editor with grouped undo and redo.

Layout:

- `src/` - the library. Each function states its behaviour in `requires` and
  `ensures`, over spec functions of the same module; laws that relate several
  functions (write then read gives the picture back, undo restores what an
  edit changed) are public proof functions.
- `tests/` - tests of the library on concrete pictures and files.
- `app/` - a command line front end: it reads and writes files and calls the
  library.
