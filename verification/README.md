# gba_agb_font

Bitmap fonts for the Game Boy Advance, verified with Verus.

- `src/` is the verified library: the binary font format (`printable`,
  `full`, `blob`), text measuring and wrapping (`metrics`, `font`, `lines`),
  sheet conversion (`parsing`, `create`, `common`, `edit`, `update`), the
  font declaration arguments (`arg_tokens`, `macro_args`, `font_decl`), and
  the renderers that stage text into 8x8 tiles or hardware sprites
  (`tiles`, `renderer`, `layout`, `text_renderer`, `typewriter`,
  `multi_typewriter`, `sprite`, `sprite_renderer`). Public proof functions
  in `laws` state properties that span several functions.
- `app/` is the command-line converter around the library (file I/O,
  argument handling, and reading Aseprite sheets, whose reader is guarded
  against panics on malformed files there) and, on the GBA target, the glue
  that copies rendered tiles, each with its palette, and sprites to video
  memory.
- `tests/` exercises the library on concrete fonts and sheets.
