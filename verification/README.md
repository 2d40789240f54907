# universe_wasm

A Barnes-Hut N-body simulator with quantized, cached forces, and a moiré
parallax engine, built for WebAssembly.

The crate is split in two:

- `src/` is the verified library. It holds the integer side of both
  engines:
  - `morton`: 3D Morton keys of 10-bit coordinates, proved to interleave the
    coordinate bits, to ignore higher bits, to stay below 2^30 and to be
    injective and onto [0, 2^30).
  - `force_key`: the radius, polar and azimuth buckets of a quantized force
    and their packing with a node id into a `u64` cache key; the fields are
    proved to read back and keys to be equal exactly when their fields are.
  - `force_cache`: the per-frame force cache with hit and miss counters;
    within a step the number of cached forces equals the miss count.
  - `octree`: the arena octree. A particle is described by its octant path
    (three bits per depth); building inserts the particles in order, splitting
    occupied leaves and merging below the depth limit. Proved: every particle
    is held by the node where its path comes to rest; two particles share a
    node only below the depth limit, with paths that agree all the way down;
    a node is split exactly when two particles pass through it above the
    limit; every node but the root lies in exactly one child block, so there
    are `1 + 8 * (internal nodes)` nodes, at most `1 + 168 * (n - 1)` for `n`
    particles; node ids are sequential; the placement log names, at each
    leaf, exactly the particles resting there, once each, in insertion order,
    and names each internal node once, by the stored entry of the smallest
    particle through it, which is what the front end needs to accumulate
    masses. The tree and log built are a function of the octant paths alone
    (`built`), so a step forgets everything before it but the particles.
  - `universe`: particle count, force mode, tree, cache and frame counter.
  - `moire`: the background lattice layout and the quadrant of each node.
- `app/` is the `wasm_bindgen` front end. It owns the `f32` buffers and all
  floating-point work (bounding cube, octant comparisons, centres of mass,
  force traversal, integration, moiré displacement) and the JavaScript clock,
  and drives the library for everything else.
