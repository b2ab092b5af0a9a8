//! Flame fractal core: the generator walk of an iterated function system, a
//! conservative bounds solver for its attractor, a planner that splits the
//! accumulation into a cascade of passes, and a memoizing cache for the
//! resources of those passes.
//!
//! Numbers are fixed point (see `geometry`), so every step is deterministic and the
//! same on every machine.
pub mod geometry;
pub mod fixed_point;
pub mod flame;
pub mod bounds;
pub mod plan;
pub mod cache;
pub mod accumulate;
pub mod mesh;
pub mod util_types;
