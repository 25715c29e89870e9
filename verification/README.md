# mohe_ji

MoHe-Ji is an illustration editor for PPW curves (paths of control points
with per-point weights and per-segment phi/psi parameters), with vector
layers, raster layers and placed images, saved as SVG.

This crate is its core, verified with Verus:

- `src/` — the library, every function with a contract:
  - `document`: layers, images, raster canvases and the document operations
    (adding, duplicating, deleting, moving and reordering layers, placing and
    removing images, removing points, repairing a loaded document);
  - `path`, `curve`, `shape_util`: PPW paths, the segment plan of a curve and
    polygon triangulation;
  - `selection`, `canvas_select`, `clipboard`: point and segment selections,
    what canvas presses, clicks and selection rectangles select, and copying
    selected points into new paths;
  - `history`: the bounded undo/redo history;
  - `tools`, `wheel`, `shortcuts`: tools, the mouse-wheel parameter editing
    plan and the keyboard shortcuts;
  - `text`, `svg_tags`, `svg_lines`, `svg_data`, `svg_reader`: XML escaping,
    attribute reading, colors and numbers, the lines of a saved drawing (layer
    tags, paths, raster strokes, placed images and raster canvases) as they are
    written and read back, embedded PNG images, and reading a saved drawing
    back line by line;
  - `svg_document`, `svg_reload`: a whole drawing as SVG text, and what
    reading that text back line by line gives.
- `tests/` — tests run against the compiled library.
- `app/` — the egui/eframe editor around the library: windows, drawing,
  floating-point geometry, file dialogs and file I/O.
