//! A world of colliding bodies in fixed-point arithmetic.
//!
//! Discs, boxes and convex polygons travel in a bounded arena.  A
//! quad-tree proposes pairs of bodies that may touch, a separating-axis
//! search finds the push between the two bodies of a pair, and the world
//! lets them rebound, keeps them inside the arena and moves them on.
//!
//! Every number is an `i64` counting units of 2^-32 (see `fixed`).  Every
//! executable function has a contract over the mathematical models in
//! `tree` and `scene`, and the lemmas there and in `pair` state what holds
//! of every tree and of every step.
pub mod circle;
pub mod collisions;
pub mod fixed;
pub mod geometry;
pub mod object;
pub mod pair;
pub mod polyhedron;
pub mod quad_tree;
pub mod rectangle;
pub mod scene;
pub mod tree;
pub mod world;
