//! The scene-graph, CSG and raster logic of a ray tracer, with its contracts.

pub mod arena;
pub mod canvas;
pub mod csg;
pub mod cube;
pub mod group;
pub mod image;
pub mod intersection;
pub mod mesh;
pub mod scene;
pub mod shape;
pub mod text;

pub use canvas::Canvas;
pub use csg::{a_includes_b, filter_intersections, intersection_allowed, Csg, CsgOp};
pub use cube::CubeFace;
pub use group::Group;
pub use intersection::{Intersection, IntersectionList};
pub use mesh::Mesh;
pub use scene::BackendEnum;
pub use shape::{valid_arena, Shape, ShapeArr, ShapeEnum, ShapeIdx};
