//! A simulated-annealing optimizer for axis-aligned rectangle placement.
//!
//! Given point requests on a fixed 10000 x 10000 grid, each asking for a
//! rectangle of a target area that covers its point, the library searches for
//! pairwise disjoint rectangles maximizing a per-request satisfaction score.
//! The caller drives the search by running iterations until its own time
//! budget runs out; the library itself is deterministic in its inputs.

pub mod anneal;
pub mod geom;
pub mod rng;
pub mod score;

pub use anneal::Annealer;
pub use anneal::TEMP_INIT_Q32;
pub use geom::MAP_SIZE;
pub use geom::Request;
pub use geom::Rect;
pub use rng::DEFAULT_SEED;
pub use rng::Rng;
