//! Finds the four corners of a photographed document from the straight lines detected
//! in its edge image, and plans the perspective correction that makes it upright.

pub mod geometry;
pub mod lines;
pub mod corners;
pub mod rectify;

pub use geometry::{Point, Quadrilateral, euclidean_distance};
pub use lines::{LineCluster, MeanLine, PolarLine, cluster_lines, top_four};
pub use corners::{UNIT, find_hough_intersections, polarline_intersection, resolve_corners};
pub use rectify::{Rectification, rectification};
