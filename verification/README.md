# gravity_edge_bundling

Edge bundling by gravity: the edges of a graph are drawn as polylines of
control points that springs keep smooth and that the potential field of the
graph's nodes pulls together.

- `src/` is the verified library (Verus). It holds the integer structure of
  the simulation, with its contracts and laws proved:
  - `grid.rs`: row-major grids, transposition, zero-padding and cropping for
    the FFT convolution, interleaving of force components, the
    finite-difference stencil of the force field, bilinear cells and the
    periodic layout of the convolution kernel;
  - `layout.rs`: where each edge's control points live in the flat coordinate
    buffer, the per-point metadata and line list used for drawing, and the
    relaxation sweep that moves interior points only;
  - `gpu.rs`: dispatch sizes and ping-pong buffer bookkeeping of the GPU
    pipeline.
- `app/` is the program around it: the floating-point physics (potential,
  forces, spring updates, FFT through `rustfft`), the WebGPU pipeline and the
  JavaScript bindings.
- `tests/` runs the library on concrete inputs.
