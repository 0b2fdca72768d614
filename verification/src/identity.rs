//! The identity facts, kept four: the continuing person, the body revision,
//! the faction and office facets, and the control pointer.

use vstd::prelude::*;

pub mod control;
pub mod facets;

verus! {

/// The continuing person. Survives a new body, a change of office, a change
/// of who is controlling them, and their own death as far as the record goes.
#[derive(Clone, Copy, Debug, Default, PartialEq, Eq, Structural, PartialOrd, Ord, Hash)]
pub struct SubjectId(pub u64);

/// Which body, at which revision. Opaque: nothing here interprets the number.
#[derive(Clone, Copy, Debug, Default, PartialEq, Eq, Structural, PartialOrd, Ord, Hash)]
pub struct BodyRevisionId(pub u64);

/// A faction. Membership is a relationship stored as a pair, not a field.
#[derive(Clone, Copy, Debug, Default, PartialEq, Eq, Structural, PartialOrd, Ord, Hash)]
pub struct FactionId(pub u64);

/// An office: a role that exists apart from whoever holds it.
#[derive(Clone, Copy, Debug, Default, PartialEq, Eq, Structural, PartialOrd, Ord, Hash)]
pub struct OfficeId(pub u64);

/// The shared clock, stamped the same way by every owner.
#[derive(Clone, Copy, Debug, Default, PartialEq, Eq, Structural, PartialOrd, Ord, Hash)]
pub struct Tick(pub u64);

impl Tick {
    /// `ticks` later, saturating at the end of time rather than wrapping.
    pub fn after(self, ticks: u64) -> (later: Self)
        ensures
            later.0 == (if self.0 + ticks > u64::MAX { u64::MAX as int } else { self.0 + ticks }),
    {
        Tick(self.0.saturating_add(ticks))
    }
}

#[derive(Clone, Copy, Debug, PartialEq, Eq, Structural)]
pub enum IdentityError {
    /// An office was founded twice under the same id.
    OfficeExists(OfficeId),
    NoSuchOffice(OfficeId),
    /// Someone else already holds it. Offices are vacated, not overwritten.
    OfficeHeld(OfficeId, SubjectId),
    /// Nobody holds it, so there is nothing to vacate.
    OfficeVacant(OfficeId),
    /// A control log began twice.
    AlreadyBegun,
    /// A control log that does not open with a begin.
    NotBegun,
    /// Tag-in while already tagged in, which would be two bodies at once.
    AlreadyTaggedIn,
    /// Tag-out while not tagged in.
    NotTaggedIn,
}

} // verus!
