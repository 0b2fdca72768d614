//! The room probe's own decisions: the frame-health gate between a frame
//! and its presentation, the carved chamber's bounds, and the walk of a
//! fixed trace through it. The grown world itself, its bricks and its
//! kinematics, are outside work the probe asks about.

pub mod frame_health;
pub mod room;
pub mod probe;
pub mod scene;
pub mod residency;
pub mod hunt;
pub mod receipt;
pub mod zoom;
