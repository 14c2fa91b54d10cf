//! A two-part geometric scene engine: a hierarchical rectangle layout tree
//! with incremental constraint propagation, and a linear bounding-volume
//! hierarchy (LBVH) over axis-aligned rectangles, built from Morton-encoded
//! centers.
//!
//! All coordinates are integers. Callers that work in floating point convert
//! at the boundary.

pub mod depth_set;
pub mod geom;
pub mod layout;
pub mod morton;
pub mod mut_detect;
pub mod node;
pub mod node_set;
pub mod sparse_map;
pub mod spatree;
pub mod tree;

pub use geom::Point;
pub use geom::Rect;
pub use geom::Size;
pub use geom::Vec2;
pub use layout::Constraint;
pub use layout::LayoutSolver;
pub use layout::LayoutWorld;
pub use layout::Positioner;
pub use node::RectNode;
pub use tree::NodeId;
pub use tree::Rectree;
