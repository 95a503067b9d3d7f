//! Delaunay triangulation in the plane by the Guibas–Stolfi divide-and-conquer
//! construction over a quad-edge mesh.
//!
//! - [`point`] holds points by the bit patterns of their binary64
//!   coordinates, and sorts and deduplicates them; [`binary64`] compares such
//!   bit patterns in exact integer arithmetic, and [`order`] runs the sort.
//! - [`edge`] is the quad-edge mesh: edge references, the rotation family,
//!   the neighbour queries, Splice, Connect, DeleteEdge and Swap. Its records
//!   live in an arena, whose behaviour [`arena`] states. [`text`] writes the
//!   numbers of an edge reference out for messages.
//! - [`algebra`] and [`rings`] hold what is proved of every mesh: the
//!   rotation algebra, that Splice is its own inverse and merges or splits
//!   rings, that DeleteEdge unlinks, and that the Onext rings close.
//! - [`invariants`] holds what the construction keeps whatever it is
//!   answered: the mesh an edge algebra between the given points, with hull
//!   edges that leave the first and the last point.
//! - [`gns_delaunay`] is the construction. It stops at each geometric
//!   question and is resumed with the answer, so that the predicates can be
//!   evaluated on floating-point values by the caller:
//!
//! ```text
//! sanitize_points_vec(&mut points)?;
//! let mut machine = Triangulator::new(points)?;
//! while let Some(query) = machine.pending() {
//!     machine.answer(evaluate(&query));
//! }
//! let lines = machine.edges();
//! ```

pub mod algebra;
pub mod arena;
pub mod binary64;
pub mod edge;
pub mod error;
pub mod gns_delaunay;
pub mod invariants;
pub mod order;
pub mod point;
pub mod rings;
pub mod text;
