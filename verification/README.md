# dogeis_powder

A falling-sand particle simulation. `src/` is the verified library (Verus):

- `color` — packed ARGB colours, channel getters and setters, inversion.
- `element` — the elements and their fixed integer properties.
- `particle` — particles as the world's bookkeeping sees them, and the random colour
  variation of new particles (through `rand`).
- `scan`, `raster`, `shape_utils` — rasterisation of lines (Bresenham), rectangles, ovals
  and triangles into lists of cells.
- `shape` — the brush shapes, their scaling and cycling, and their cells around a centre.
  Shapes carry no rotation: none of the rasterisers turns a shape, so the angle that a
  brush could hold would change nothing that is drawn.
- `tool` — the cells a brush stroke covers.
- `settle` — which states gravity speeds up, and the order of the moves a settling
  particle tries.
- `world` — the index grid, and the particle world's bookkeeping: spawning, killing,
  moving (denser particles sink), rebuilding the grid and removing dead particles.
- `laws` — properties that hold across these operations.

`app/` is the program around it: the minifb window and input, and everything computed in
floating point (positions, velocities, gravity, colour blending, the physics step).
