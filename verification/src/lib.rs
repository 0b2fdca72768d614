//! Paredros: identity, social willingness, and the sortie that joins them,
//! as a verified library.
//!
//! - [`identity`]: the continuing person, body revisions, faction and office
//!   facets, and the control pointer that says who the player is being;
//! - [`social`]: deeds, standing folded from deeds, the willingness rule,
//!   standing agreements, settlements, and an observer-scoped record of claims;
//! - [`room`]: the room probe's own decisions (the walk trace, the frame
//!   health gate, the chamber's bounds) with the terrain kept outside;
//! - [`sortie`]: one sortie and return, as a state machine whose only outside
//!   work is the terrain's step and carve.
#![allow(unused_imports)]

pub mod identity;
pub mod keyed;
pub mod room;
pub mod social;
pub mod sortie;
