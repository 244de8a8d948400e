pub mod geometry;
pub mod sphere;
pub mod shape;
pub mod select;
pub mod partition;
pub mod kdtree;
pub mod traverse;
