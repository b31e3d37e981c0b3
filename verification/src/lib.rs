//! Conway's Game of Life on a toroidal square lattice, with three
//! interchangeable grid storage layouts (nested rows, a flat row-major
//! buffer, and a buffer ordered along a Hilbert space-filling curve) whose
//! observable behavior is identical, so that callers can compare how data
//! layout affects access locality and throughput.

pub mod game;
pub mod grid;
pub mod hilbert;
