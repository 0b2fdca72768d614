//! The deed log: who did what, when, to or for whom. Append-only.
//!
//! Standing is folded out of this log, so an answer can always name the
//! deeds it rests on. Agreement transitions are deeds like any other.

use vstd::prelude::*;

use crate::identity::{SubjectId, Tick};
use crate::social::agreement::AgreementId;

verus! {

#[derive(Clone, Copy, Debug, Default, PartialEq, Eq, Structural, PartialOrd, Ord, Hash)]
pub struct DeedId(pub u64);

/// What was done. Small on purpose: a vocabulary a player can hold in their
/// head is a vocabulary they can use to predict an answer.
#[derive(Clone, Copy, Debug, PartialEq, Eq, Structural)]
pub enum DeedKind {
    /// Stayed when leaving was the safe choice.
    StoodBy,
    /// Left when staying was the promise.
    Abandoned,
    /// Gave away something scarce.
    Shared,
    /// Took what was not offered.
    Took,
    OfferAccepted,
    OfferRefused,
    OfferCountered,
    AgreementFormed(AgreementId),
    PerformedUnderAgreement(AgreementId),
    AgreementRenegotiated(AgreementId),
    AgreementEnded(AgreementId),
}

/// What a deed is worth to the one it was done to or for, as trust and
/// affinity. A refusal weighs nothing: it is a legitimate answer.
pub open spec fn weight_of(kind: DeedKind) -> (int, int) {
    match kind {
        DeedKind::StoodBy => (3, 2),
        DeedKind::Abandoned => (-5, -3),
        DeedKind::Shared => (1, 2),
        DeedKind::Took => (-2, -2),
        DeedKind::OfferAccepted => (1, 0),
        DeedKind::OfferRefused => (0, 0),
        DeedKind::OfferCountered => (0, 0),
        DeedKind::AgreementFormed(_) => (1, 1),
        DeedKind::PerformedUnderAgreement(_) => (2, 1),
        DeedKind::AgreementRenegotiated(_) => (0, 0),
        DeedKind::AgreementEnded(_) => (0, -1),
    }
}

/// How the recipient would put a deed, in the second person outward.
pub open spec fn deed_phrase(kind: DeedKind) -> Seq<char> {
    match kind {
        DeedKind::StoodBy => "stood by me"@,
        DeedKind::Abandoned => "left me"@,
        DeedKind::Shared => "shared with me"@,
        DeedKind::Took => "took from me"@,
        DeedKind::OfferAccepted => "took up my offer"@,
        DeedKind::OfferRefused => "turned my offer down"@,
        DeedKind::OfferCountered => "answered my offer with terms of their own"@,
        DeedKind::AgreementFormed(_) => "agreed a standing arrangement with me"@,
        DeedKind::PerformedUnderAgreement(_) => "did the agreed work"@,
        DeedKind::AgreementRenegotiated(_) => "changed our terms"@,
        DeedKind::AgreementEnded(_) => "ended our arrangement"@,
    }
}

impl DeedKind {
    pub fn weight(&self) -> (w: (i16, i16))
        ensures
            w.0 as int == weight_of(*self).0,
            w.1 as int == weight_of(*self).1,
            -5 <= w.0 <= 3,
            -3 <= w.1 <= 2,
    {
        match self {
            DeedKind::StoodBy => (3, 2),
            DeedKind::Abandoned => (-5, -3),
            DeedKind::Shared => (1, 2),
            DeedKind::Took => (-2, -2),
            DeedKind::OfferAccepted => (1, 0),
            DeedKind::OfferRefused => (0, 0),
            DeedKind::OfferCountered => (0, 0),
            DeedKind::AgreementFormed(_) => (1, 1),
            DeedKind::PerformedUnderAgreement(_) => (2, 1),
            DeedKind::AgreementRenegotiated(_) => (0, 0),
            DeedKind::AgreementEnded(_) => (0, -1),
        }
    }

    /// How the recipient would put it, in the second person outward.
    pub fn phrase(&self) -> (p: &'static str)
        ensures
            p@ == deed_phrase(*self),
    {
        match self {
            DeedKind::StoodBy => "stood by me",
            DeedKind::Abandoned => "left me",
            DeedKind::Shared => "shared with me",
            DeedKind::Took => "took from me",
            DeedKind::OfferAccepted => "took up my offer",
            DeedKind::OfferRefused => "turned my offer down",
            DeedKind::OfferCountered => "answered my offer with terms of their own",
            DeedKind::AgreementFormed(_) => "agreed a standing arrangement with me",
            DeedKind::PerformedUnderAgreement(_) => "did the agreed work",
            DeedKind::AgreementRenegotiated(_) => "changed our terms",
            DeedKind::AgreementEnded(_) => "ended our arrangement",
        }
    }
}

/// One entry. `toward` is optional because some deeds are done in the world
/// rather than to a person, and those move nobody's standing.
#[derive(Clone, Copy, Debug, PartialEq, Eq, Structural)]
pub struct Deed {
    pub id: DeedId,
    pub at: Tick,
    pub doer: SubjectId,
    pub toward: Option<SubjectId>,
    pub kind: DeedKind,
}

/// The deeds `by` did to or for `holder`, oldest first.
pub open spec fn done_to_spec(deeds: Seq<Deed>, holder: SubjectId, by: SubjectId) -> Seq<Deed>
    decreases deeds.len(),
{
    if deeds.len() == 0 {
        Seq::empty()
    } else {
        let before = done_to_spec(deeds.drop_last(), holder, by);
        if deeds.last().doer == by && deeds.last().toward == Some(holder) {
            before.push(deeds.last())
        } else {
            before
        }
    }
}

/// Append-only by construction: there is no removal, no edit, and no
/// interior mutation of an entry once recorded.
#[derive(Clone, Debug, PartialEq, Eq)]
pub struct DeedLog {
    deeds: Vec<Deed>,
    next: u64,
}

/// A log whose entries are numbered by their position.
pub open spec fn numbered(deeds: Seq<Deed>) -> bool {
    forall|i: int| 0 <= i < deeds.len() ==> (#[trigger] deeds[i]).id == DeedId(i as u64)
}

impl DeedLog {
    pub closed spec fn deeds_spec(&self) -> Seq<Deed> {
        self.deeds@
    }

    pub closed spec fn next_spec(&self) -> u64 {
        self.next
    }

    /// Every deed's id is its position, and the next id is the length.
    pub open spec fn wf(&self) -> bool {
        &&& numbered(self.deeds_spec())
        &&& self.next_spec() == self.deeds_spec().len()
    }

    pub fn new() -> (log: Self)
        ensures
            log.wf(),
            log.deeds_spec() == Seq::<Deed>::empty(),
    {
        DeedLog { deeds: Vec::new(), next: 0 }
    }

    /// Appends a deed under the next id.
    pub fn record(&mut self, at: Tick, doer: SubjectId, toward: Option<SubjectId>, kind: DeedKind) -> (id:
        DeedId)
        requires
            old(self).wf(),
            old(self).deeds_spec().len() < u64::MAX,
        ensures
            final(self).wf(),
            id == DeedId(old(self).deeds_spec().len() as u64),
            final(self).deeds_spec() == old(self).deeds_spec().push(
                Deed { id, at, doer, toward, kind },
            ),
    {
        let id = DeedId(self.next);
        self.next = self.next + 1;
        self.deeds.push(Deed { id, at, doer, toward, kind });
        id
    }

    pub fn deeds(&self) -> (deeds: &[Deed])
        ensures
            deeds@ == self.deeds_spec(),
    {
        self.deeds.as_slice()
    }

    /// The deed recorded under `id`, if there is one.
    pub fn get(&self, id: DeedId) -> (deed: Option<&Deed>)
        requires
            self.wf(),
        ensures
            match deed {
                Some(d) => id.0 < self.deeds_spec().len() && *d == self.deeds_spec()[id.0 as int],
                None => id.0 >= self.deeds_spec().len(),
            },
    {
        let n = self.deeds.len();
        if id.0 < self.next {
            assert(id.0 < n);
            let i = id.0 as usize;
            assert(i as int == id.0);
            Some(&self.deeds[i])
        } else {
            None
        }
    }

    pub fn len(&self) -> (n: usize)
        ensures
            n == self.deeds_spec().len(),
    {
        self.deeds.len()
    }

    pub fn is_empty(&self) -> (b: bool)
        ensures
            b == (self.deeds_spec().len() == 0),
    {
        self.deeds.len() == 0
    }

    /// Everything `by` did to or for `holder`, oldest first. The evidence
    /// behind one person's read of another.
    pub fn done_to(&self, holder: SubjectId, by: SubjectId) -> (deeds: Vec<&Deed>)
        ensures
            deeds@.len() == done_to_spec(self.deeds_spec(), holder, by).len(),
            forall|i: int|
                0 <= i < deeds@.len() ==> *#[trigger] deeds@[i] == done_to_spec(
                    self.deeds_spec(),
                    holder,
                    by,
                )[i],
    {
        let mut found: Vec<&Deed> = Vec::new();
        let mut i: usize = 0;
        while i < self.deeds.len()
            invariant
                i <= self.deeds@.len(),
                found@.len() == done_to_spec(self.deeds@.subrange(0, i as int), holder, by).len(),
                forall|j: int|
                    0 <= j < found@.len() ==> *#[trigger] found@[j] == done_to_spec(
                        self.deeds@.subrange(0, i as int),
                        holder,
                        by,
                    )[j],
            decreases self.deeds@.len() - i,
        {
            let deed = &self.deeds[i];
            proof {
                assert(self.deeds@.subrange(0, i + 1).drop_last() =~= self.deeds@.subrange(
                    0,
                    i as int,
                ));
            }
            if deed.doer == by && deed.toward == Some(holder) {
                found.push(deed);
            }
            i = i + 1;
        }
        proof {
            assert(self.deeds@.subrange(0, i as int) =~= self.deeds@);
        }
        found
    }
}

} // verus!
