//! An axis-aligned hypercube ("N-cube") region in N-dimensional space, the
//! geometric kernel used by spatial-tree builders (quadtrees, octrees and
//! their higher-dimensional generalizations).
//!
//! A region is a center point plus a positive edge width.  It can test
//! whether a point lies inside it (open at each axis minimum, closed at each
//! axis maximum), map a point to the index of the child region that would own
//! it, and subdivide itself into `2^N` half-width children whose order agrees
//! with that index encoding.
//!
//! Coordinates are exact dyadic rationals (`m / 2^e`), so halving a width and
//! offsetting a center by a quarter width are exact and the partition
//! properties are proved, not approximated.

pub mod bits;
pub mod dyadic;
pub mod laws;
pub mod ncube;
