//! A point quadtree: a recursive 2D spatial partition with capacity-bounded
//! nodes, strict-interior containment, and a lossless structural codec.

pub mod codec;
pub mod geom;
pub mod model;
pub mod tree;

pub use geom::Point;
pub use geom::QuadError;
pub use geom::Rectangle;
pub use tree::QuadTree;
