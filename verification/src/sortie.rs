//! One sortie and return: the place where willingness and the march meet.
//!
//! Nothing here commands a companion. The played body walks toward the
//! leg's goal, companions walk by their agreed parts, and a companion whose
//! agreement never formed stands at home for the whole run. The terrain's
//! own step and carve are outside work: the march asks for them and is told
//! what happened, one answer at a time.

pub mod march;
pub mod party;
pub mod sortie;
pub mod scene;
