# blitz_paint

The decisions and the arithmetic of painting CSS boxes, as a Verus library: which background
layers are painted and where their tiles go, how borders and outlines are cut into pieces, how
gradients, images and whole recorded scenes go through the colour-matrix filters, which SVG
tiles may be rasterised once and repeated.

Every function of the library is proved against its contract, but for the wrappers around
`smallvec`: `new`, `push`, `len` and `at` of `MatrixList` (`src/color_matrix`), and `new`, `push`,
`insert`, `len` and `at` of `PieceList` (`src/pieces`) and of `StopList` (`src/ramp`). Each makes
one call, and its contract, which is believed, says what that call does to the items.

Binary floating point is part of the library (`ieee`): numbers are bit patterns, and each
operation is proved to give the pattern that IEEE 754 arithmetic gives, so contracts speak of the
very numbers that are painted with.

## Layout

- `src/ieee` - the two floating-point formats: their model, correct rounding, the operations.
- `src/geometry`, `src/color`, `src/element` - plain values, and what is read of an element.
- `src/background`, `src/sizing`, `src/tiling`, `src/layers` - background layers.
- `src/svg_tile` - when a rasterised tile may stand for the vector replay of an SVG.
- `src/border`, `src/edges`, `src/pieces`, `src/outline` - borders and outlines.
- `src/table`, `src/widget`, `src/flex` - collapsed table borders, custom widgets, flex rows.
- `src/color_matrix`, `src/ramp`, `src/image`, `src/scene` - filters.
- `src/laws` - what holds of several functions together, as public proof functions. `exact` and
  `segment` show that a filtered ramp is the filter of each pixel where nothing is rounded,
  `rounding`, `crossings`, `fidelity` and `gradients` how near it is where something is; `culling`
  shows that no tile moves, `substitution` that a rasterised tile paints what is replayed.
- `tests` - the library run on concrete values.
- `app` - paints with `anyrender`, `kurbo`, `peniko` and `stylo` what the library decides.
