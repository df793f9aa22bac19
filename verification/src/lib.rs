//! The bookkeeping of a verlet cloth: points joined by sticks, the counts
//! that tie them together, the tools that cut, snap, join and spawn, the
//! input rules that pick a tool, the mode symbol drawn in the corner and the
//! tick pattern of the sound effect.
//!
//! Positions and lengths are opaque type parameters: every piece of
//! floating-point geometry is handed in by the caller, and the library
//! proves what happens to the structure around it.

pub mod degree;
pub mod mode;
pub mod cloth;
pub mod weave;
pub mod grid;
pub mod tools;
pub mod physics;
pub mod symbols;
pub mod audio;
pub mod laws;
