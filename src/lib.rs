//! Construction of a planar road network from raw map data: the topological graph of
//! intersections and roads, the boundary polygon of every intersection, the matching of
//! points to the nearest usable line feature, and the attachment of buildings to sidewalks.
//!
//! All geometry is integral: coordinates and distances are whole centimetres.
pub mod buildings;
pub mod crosswalk;
pub mod edges;
pub mod geom;
pub mod initial;
pub mod matcher;
pub mod polygon;
pub mod raw;
pub mod simple;
pub mod widgets;
