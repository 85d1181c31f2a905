# martian_sand

A falling-sand toy: cells of different elements fall, flow, react and emit new
cells inside a window.

`src/` is the verified library:

- `qtree` — the point quad tree that indexes cells by position (insert, lookup,
  removal by row and column within a leaf), with its invariant, its model
  (`at`, `leaf_rect`, `leaf_points`) and its laws; `qtree::quad`, `qtree::node`
  and `qtree::space` hold a second quad tree, one whose inner nodes keep
  items of their own.
- `cell` — a cell's pseudo-random generator, its starting age, when it dies of
  age, and the neighbours it looks at or emits into.
- `world` — moving the element selection, which cells stay in the world,
  building the tree of cell positions, and placing cells under the brush.
- `element` — looking an element up by name.
- `util` — clamping of wrapped values and writing pixels into an RGBA frame.

`app/` is the program around it: the window and event loop, the floating-point
physics of cells, reading `elements.json`, and drawing circles.
