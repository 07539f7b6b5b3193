//! Verified core of a procedural spider walking demo.
//!
//! The heart of the crate is a two-segment leg inverse-kinematics solver and
//! the per-tick body update that drives it: velocity integration, facing
//! smoothing, leg retargeting when a leg over- or under-extends or twists too
//! far, and exponential smoothing of the joint positions used for rendering.
//!
//! All geometry is carried out in deterministic fixed-point arithmetic
//! (`FX_ONE` steps per world unit), so every function is total, free of
//! overflow and free of the NaN failure modes a floating-point
//! implementation has to defend against.

pub mod vec2;
pub mod solver;
pub mod spider;
pub mod conf;
