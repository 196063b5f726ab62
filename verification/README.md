# pdf_android

Verified core of an Android PDF reader's front end, written in Verus.

`src/` is the library, every function verified:

- `page_cache` — LRU cache of rendered pages under an entry cap and a byte
  budget with deferred eviction.
- `ovl_budget`, `textures` — byte-budgeted LRU of overlay textures and the
  bookkeeping of the GPU textures behind it (and of the opening fade).
- `dry_key` — invalidation key of the persistent page layer.
- `pixels`, `bitmap` — fills, clipped blits with format conversion and alpha
  blending, the library screen's composition, ARGB read-back.
- `raster` — the ink rasterizer: Bresenham lines, round brushes, stamping.
- `discover` — Discover (arXiv) cache keys, feed cache paths, expiry and
  pruning plan, query strings, download names, pagination.
- `text`, `strings`, `annotations` — line wrapping, search summary, labels,
  pen state.

`app/` holds what is not verified: file and network I/O, the worker
thread, JNI, and the floating-point geometry of strokes.

`tests/` runs the library on concrete values.
