//! The discrete core of a small 2D rigid-body simulator.
//!
//! The numeric work of a simulation step (integrating, testing two shapes
//! for overlap, resolving a contact) belongs to the caller. This crate
//! holds what surrounds it: which bodies and which pairs of bodies each
//! phase of a step visits, in what order, and how two bodies of one
//! collection are borrowed mutably at once.

pub mod access;
pub mod body;
pub mod pipeline;
pub mod stepper;
