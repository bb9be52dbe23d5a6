//! Entity hierarchy, transform composition and spatial indexing for a 2D canvas.
//!
//! Coordinates are integer canvas units and rotations are whole quarter turns, so that
//! composing transforms is exact and every query answer is determined by the scene.
pub mod geometry;
pub mod entity;
pub mod transform;
pub mod hierarchy;
pub mod quadtree;
pub mod ecs;
pub mod hit_test;
