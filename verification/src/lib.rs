//! A verified implementation of the WSP space-filling algorithm.
//!
//! Given a set of points in a metric space and a minimal distance,
//! WSP builds a subset where all remaining points are at least that
//! distance from each other: starting from a (pseudo-)randomly chosen
//! origin, it kills every point too close to the origin, advances to
//! the nearest remaining unvisited point, and repeats until every
//! point has been visited or removed.  An adaptive variant binary
//! searches the distance so that a target number of points survives.
//!
//! Coordinates are fixed-point integers (`COORD_SCALE` steps per
//! unit), so distances are exact integers, their comparisons are
//! total, and the elimination and search logic is verified: the
//! executable walk and search compute exactly the functions
//! `walk_of` and `adaptive_search` of the immutable geometry, and the
//! surviving set provably respects the minimal distance.

pub mod adaptive;
pub mod distance;
pub mod order;
pub mod pointset;
pub mod rng;
pub mod state;
pub mod walk;

pub use adaptive::adaptive_wsp;
pub use adaptive::adaptive_wsp_from;
pub use distance::distance_sq;
pub use distance::manhattan_distance;
pub use distance::DistanceMetric;
pub use distance::COORD_LIMIT;
pub use distance::COORD_SCALE;
pub use distance::MAX_DIMENSION;
pub use pointset::compute_distance_matrix;
pub use pointset::PointSet;
pub use pointset::WspError;
pub use rng::ORIGIN_SEED;
pub use walk::wsp;
pub use walk::wsp_loop_fast;
