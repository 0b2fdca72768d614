//! What is asked, and on what terms.
//!
//! An offer is asked. Constructing one commits nobody to anything: it is a
//! proposal handed to the society, and the answer that comes back is theirs.

use vstd::prelude::*;

use crate::identity::SubjectId;
use crate::social::companion::Craft;

verus! {

/// The work itself. Grade is what it takes; danger is what it costs.
#[derive(Clone, Copy, Debug, PartialEq, Eq, Structural)]
pub struct Work {
    pub craft: Craft,
    pub grade: u8,
    pub danger: u8,
}

impl Work {
    pub fn new(craft: Craft, grade: u8, danger: u8) -> (work: Self)
        ensures
            work == (Work { craft, grade, danger }),
    {
        Self { craft, grade, danger }
    }
}

/// What the asker promises. `share` is the portion of what comes back;
/// `danger_cap` is the most danger they will be asked to bear under this
/// arrangement.
#[derive(Clone, Copy, Debug, PartialEq, Eq, Structural)]
pub struct Terms {
    pub share: u8,
    pub danger_cap: u8,
}

impl Terms {
    pub fn new(share: u8, danger_cap: u8) -> (terms: Self)
        ensures
            terms == (Terms { share, danger_cap }),
    {
        Self { share, danger_cap }
    }
}

#[derive(Clone, Copy, Debug, PartialEq, Eq, Structural)]
pub struct Offer {
    pub asked_by: SubjectId,
    pub asked_of: SubjectId,
    pub work: Work,
    pub terms: Terms,
}

impl Offer {
    pub fn new(asked_by: SubjectId, asked_of: SubjectId, work: Work, terms: Terms) -> (offer: Self)
        ensures
            offer == (Offer { asked_by, asked_of, work, terms }),
    {
        Self { asked_by, asked_of, work, terms }
    }

    /// The same ask, put to somebody else.
    pub fn to(&self, asked_of: SubjectId) -> (offer: Self)
        ensures
            offer == (Offer { asked_of, ..*self }),
    {
        Self { asked_of, ..*self }
    }

    /// The same ask, on the terms they countered with.
    pub fn on(&self, terms: Terms) -> (offer: Self)
        ensures
            offer == (Offer { terms, ..*self }),
    {
        Self { terms, ..*self }
    }
}

} // verus!
