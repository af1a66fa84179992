# engine

The verified core of a browser page layout engine for posters and booklets.

The crate holds the parts of the engine that work on integers, bytes and text.
The document model (a loro CRDT document with commands and undo), text shaping
and setting, the PDF writer, rasterizing and colour management are not part of
it: they compute in floating point throughout. `content_hash`, which names image
and font files, is 64-bit FNV-1a over the bytes written as 16 lowercase hex
digits, the same hash a typeface carries.

- `src/` is the library, verified with Verus:
  - `display_list`: the binary display list the canvas renderer reads; each item
    and layer carries the FNV-1a hash of its content, and `close` finds the op that
    ends a bracket.
  - `image`: the registry of PNG and JPEG files by content hash, with the
    decoding of their pixels into premultiplied RGBA.
  - `text`: the fonts text can be set in, hyphenation points, the line that holds
    a byte offset, and the text that a run of glyphs stands for in the PDF.
  - `doc`: spreads of facing pages and the side each page takes in them, master
    page prefixes, and conversions between UTF-16 indices and byte offsets.
  - `raster`: the box blurs that make shadows and layer blurs.
  - `variable`: how a node resolves a variable to its value in the mode chosen
    for its collection.
  - `layout`, `style`, `color`: the settings these name.
- `app/` holds what works in floating point (shape geometry, Knuth-Plass line
  breaking, auto layout, the Gaussian blur's box sizes), the float display list and
  its conversion to the library's, and the registries that live as long as the page.
- `tests/` runs the library on concrete inputs.
