# raytrace

A small ray tracer. The library (`src/`) holds the parts whose behaviour is
proved with Verus:

- `raster`: layout of the RGB sample buffer (size from the pixel
  coordinates, sample positions) and the index arithmetic of the image
  filters: the clipped 3x3 neighbourhood of the switching median, the rank of
  the replacing median, and the clamped taps of the separable blur.
- `bvh`: the bounding volume hierarchy, generic in the box type, built by
  cutting boxes in two; the cuts and the side of each primitive come from
  the caller.
- `traverse`: the closest-hit search through the hierarchy, with pruning of
  boxes that lie no nearer than the best hit so far.
- `trace`: the order in which the camera's rays are fired and the bounce
  loop's bookkeeping.
- `selection`: stable split of a sequence by flags, and permutations of
  `0..n`.

The program (`app/`) holds the floating-point geometry and shading, random
bounce directions, and PNG output; it drives the library.
