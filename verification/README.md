# mr_pdf

A PDF generation library whose core is verified with Verus.

- `src/` is the verified library:
  - `pdf/writer.rs`: the object writer (object numbering, byte offsets, pages, links,
    shadings, content streams, the cross-reference table and trailer);
  - `pdf/crypto.rs`: RC4 and the standard security handler (revision 3, 128-bit keys);
  - `layout/table.rs`, `layout/multiplexed.rs`: table cells, builders, the placement of
    cells with column and row spans on a grid, and the byte format of buffered rows;
  - `layout/text.rs`: escaping of PDF strings and greedy word wrapping;
  - `layout/markdown.rs`, `svg.rs`: the block structure of Markdown texts and the shapes,
    colors and path commands of SVG documents;
  - `font.rs`, `image.rs`: font registration, text encoding, font metrics and font and image
    embedding. Fonts are embedded whole: the library does not subset them.
- `tests/` runs the library on concrete values.
- `app/` is the document builder around it: output sinks, files, and all the
  floating-point geometry (sizes, positions, charts).
