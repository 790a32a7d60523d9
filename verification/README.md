# particle_sim

A 2D particle simulation: particles in a 100 x 100 square, pulled by gravity,
kept in by constraints, tied together by elastic links that pull their ends
back towards their rest length and break when compressed by more than their
strength, and pushed apart when they overlap, with a uniform grid as
the broad phase for collisions.

- `src/` is the verified library (Verus): the grid (`grid.rs`), the particle and
  link bookkeeping (`space.rs`, generic over what a particle and a link hold),
  the choice of neighbours when a block of particles is tied together
  (`block.rs`), and sequence filters with their lemmas (`seqs.rs`).
- `app/` is the program: the floating-point physics, the constraints, drawing
  with macroquad, and the main loop.
- `tests/` exercises the library.
