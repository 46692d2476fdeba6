# SplatterIron core

The painting engine of the SplatterIron painting application, written in
Verus: every function in `src/` carries a contract that Verus proves,
except the few trusted wrappers around outside calls (zstd, xz2, image,
ecolor and a few std functions), whose contracts state what those crates
document and are believed without proof.

- `src/pixel.rs` — premultiplied colours, alpha blending, layer compositing.
- `src/canvas.rs` — layers, canvases and the list of dirty regions.
- `src/tools/` — the square, circle and pencil brushes, the digital line
  they follow, the scanline bucket fill and the region it covers, stamps,
  and the GIMP / Photoshop brush file parsers.
- `src/undo.rs`, `src/undo_history.rs` — undo records, the bounded undo and
  redo stacks, and the laws that undoing and redoing restore the layers.
- `src/document.rs` — layer management and compositing to the output.
- `src/files.rs` — canvas compression (zstd, xz), loaded-canvas checks,
  export pixel conversion, decoding an imported image into a canvas.
- `src/image_export.rs` — encoding exported pixels in each image format
  with the `image` crate's encoders.
- `src/file_io.rs` — the bookkeeping of background saves, loads, imports,
  exports and file dialogs.
- `src/asset_library.rs`, `src/app_state.rs`, `src/tool_configuration.rs` —
  brush and stamp libraries, autosave schedule, recent files, settings.

`app/` holds the program around the engine: file and directory access,
threads, JSON storage, and what works in floating point: HDR export,
scaling large icons down, and the brush rasterisers. `tests/` holds the tests.
