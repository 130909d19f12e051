# viua

A terminal image viewer. It shows images as coloured ASCII art (luminance,
CLAHE-equalised luminance, or Sobel edges) or hands them to a terminal graphics
printer, plays GIF animations in place, and can frame each image with an
information footer.

## Layout

- `src/` — the library, verified with Verus:
  - `ascii/` — rasters, the glyph mapping, and the three conversion algorithms
    (`lum`, `clahe`, `sobel`), with the default glyph ramp in `charset`;
  - `render/` — ANSI terminal text and a standalone HTML page for ASCII art;
  - `config` — viewer settings from the parsed command line;
  - `layout` — output sizes, the GIF playback size, the separator and the footer;
  - `playback` — loop count, frame delays and cursor rewinds of animations;
  - `input` — how command-line inputs are treated (downloads, directories, files);
  - `view` — how one image is shown;
  - `text` — small string helpers.
- `app/` — the program: command line, file and network access, terminal output.
- `tests/` — tests of the library.
