//! Spatial indexing and relaxation on an integer lattice.
//!
//! Three structures share one geometry:
//!
//! * [`kdtree`]: a balanced 2-D k-d tree, built from a point array by
//!   repeated median selection, and the search for all points within a
//!   radius of a place;
//! * [`growth`]: a ring of nodes that grows by subdividing its long edges
//!   and is relaxed toward the midpoints of ring neighbors and away from
//!   nodes nearby, which the k-d tree finds;
//! * [`webs`]: a graph in the plane that grows by laying in chords, each
//!   edge that a chord crosses being split where it is crossed, and is
//!   relaxed by drawing nodes toward distant neighbors.
//!
//! Coordinates are fixed-point lattice units held in `i32`. Every squared
//! length is computed exactly in `i128`, every sum of offsets is exact, and
//! every quotient is rounded toward zero, so that what a pass computes does
//! not depend on the order in which it meets the nodes. Chance enters only
//! through [`random`], and every function that draws is put together from
//! functions that take the values drawn.

pub mod growth;
pub mod index_list;
pub mod kdtree;
pub mod point;
pub mod random;
pub mod sums;
pub mod webs;
