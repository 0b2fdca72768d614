//! The willingness owner: why a companion says yes, no, or not like that.
//!
//! Deeds are an append-only log; standing is folded out of the log and names
//! the deeds that produced it; a companion reads work against their own
//! declared craft; refusal is a verdict and never an error; every answer
//! carries the premises that produced it; and standing agreements have
//! their whole lifecycle, each transition recorded as a deed.
//!
//! Nothing here commands anyone. Offers are put and answers come back; a
//! standing agreement makes routine work routine without making it
//! compulsory, and a holder whose premises have changed declines under one.

use vstd::prelude::*;

pub mod agreement;
pub mod companion;
pub mod deed;
pub mod epistemic;
pub mod offer;
pub mod response;
pub mod scene;
pub mod settlement;
pub mod settling;
pub mod relation;
pub mod willing;
pub mod society;
pub mod wording;
