//! The geometry of the plane that the tree covers: points and rectangular areas.
pub use crate::area;
pub use crate::point;
pub use crate::area::Area;
pub use crate::point::Point;
