# rustgraph

A tile-based CPU rasterizer. The verified library (`src/`) holds its integer
core:

- `config`: renderer settings and their defaults;
- `rasterizer`: the color frame buffer (bottom-up pixel addressing, clearing,
  the final resolve of a rendered frame) and the vertex-buffer id registry;
- `tiles`: the tile grid, the tile rectangles (proved to partition the frame),
  triangle-to-tile binning, and the pixel/texel spans a tile shades;
- `ssaa`: supersampled render size and the box-filter resolve;
- `scene`: the scene-graph hierarchy, its roots and the transform update order;
- `loader`: mesh triangle assembly from glTF primitives, texture de-duplication
  and the material-to-texture map;
- `texture`, `shader`: texel addressing for sampling and shadow filtering;
- `pixel`: RGBA pixels and their packed display word.

`app/` is the program: settings file, glTF and image I/O, floating-point
transforms and shading, the thread pool, and the window.
