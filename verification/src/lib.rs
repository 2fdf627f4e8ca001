//! Collision handling for a scene of static and moving bodies.
//!
//! World coordinates are integers. Directions and rotation entries are
//! fixed-point numbers in parts of [`vector::ONE`]. The static bodies are
//! indexed once in a bounding-volume tree; every tick the moving bodies are
//! tested against it and pushed out of whatever they penetrate.

pub mod vector;
pub mod aabb;
pub mod tree;
pub mod isometry;
pub mod shape;
pub mod containment;
pub mod contact;
pub mod world;
pub mod input;
