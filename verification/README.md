# celi_renderer

A small software renderer whose integer core is verified with Verus.

* `src/` is the verified library:
  * `screen.rs` — the frame size and the gray shading of faces;
  * `line.rs` — Bresenham lines and triangle outlines, with their exact effect
    on the frame buffer and laws (end points, connectedness, bounding box,
    idempotence);
  * `triangle.rs` — the block-based scan that finds the pixels a triangle
    fills, in scan order, with the top-left fill rule;
  * `triangle_laws.rs` — what the scan yields: each pixel once, only pixels of
    the frame, exactly the covered pixels of the visited blocks; shared edges
    are never drawn twice; back-facing triangles are empty; the corner order
    does not matter;
  * `obj.rs` — the reading of Wavefront OBJ mesh text (vertex and face lines).
* `app/` is the interactive viewer: window and keyboard (minifb), file reading,
  and everything that computes with floating point (vectors, rotation,
  projection, lighting, depth interpolation and the depth test).
* `tests/` runs the library on concrete inputs.
