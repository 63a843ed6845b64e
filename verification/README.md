# trixel

A base-3 optical code on triangular grids: bytes become trits, trits are
protected by Reed-Solomon error correction over GF(3⁶), laid out on a
triangular grid with four corner anchors by Gaussian elimination over GF(3),
rendered as colored triangles, and read back from grayscale images.

The library in `src/` is written in Verus; every function carries a contract
and is verified, but for one trusted wrapper (see `vision` below).

- `gf3`, `field` — GF(3⁶) arithmetic and its field laws.
- `rs`, `rs_roots`, `rs_checks` — the Reed-Solomon codec; encoded words
  decode to their data; the grid solver's trit parity checks are the
  Reed-Solomon syndromes.
- `codec`, `ecc` — the byte ↔ trit codec, mock framing and Reed-Solomon
  framing with their round trips.
- `matrix`, `trigrid`, `tri_anchor` — square and triangular grids, anchor
  patterns.
- `gauss`, `modular`, `solver`, `tri_gauss_solver` — linear algebra over
  GF(3) and the grid solvers; `font` lays glyphs out as constraints.
- `render`, `vision` — rendering into RGB buffers and reading them back;
  the luminance of an RGB image comes from the `image` crate, behind the one
  trusted wrapper of the library.

`app/` holds what stays outside the verified library: conversion between
the `image` crate's types and the library's, floating-point steps
(capacity fractions, Otsu's threshold, contour geometry, affine maps, HSL
relighting, error diffusion) and error types with `Display`.

The tests under `tests/` exercise the library on concrete values.

Not part of the library: the square-grid anchor solver and anchor-calibrated
reader, the square-grid halftone renderer and the camera scanner entry points.
They rest on the square-grid anchor definitions (anchor size, patterns,
corner positions, false-anchor scan), the halftone engine and the glyph
table, whose sources are not available here, so they cannot be rebuilt
faithfully.
