//! Standing agreements, with the whole lifecycle present.
//!
//! An agreement carries the terms, the work it covers, and its own history,
//! and every transition is also a deed in the log. It is still not a
//! command: a holder may decline under it when its premises have changed.

use vstd::prelude::*;

use crate::identity::{SubjectId, Tick};
use crate::social::deed::DeedId;
use crate::social::offer::{Terms, Work};

verus! {

#[derive(Clone, Copy, Debug, Default, PartialEq, Eq, Structural, PartialOrd, Ord, Hash)]
pub struct AgreementId(pub u64);

#[derive(Clone, Copy, Debug, PartialEq, Eq, Structural)]
pub enum EndReason {
    /// The asker no longer wants it.
    Withdrawn,
    /// The holder no longer wants it.
    Resigned,
    /// What it was for is done.
    WorkDone,
    /// What it rested on is no longer true.
    PremisesChanged,
}

pub open spec fn end_phrase(why: EndReason) -> Seq<char> {
    match why {
        EndReason::Withdrawn => "withdrawn"@,
        EndReason::Resigned => "resigned"@,
        EndReason::WorkDone => "the work is done"@,
        EndReason::PremisesChanged => "what it rested on changed"@,
    }
}

impl EndReason {
    pub fn phrase(&self) -> (p: &'static str)
        ensures
            p@ == end_phrase(*self),
    {
        match self {
            EndReason::Withdrawn => "withdrawn",
            EndReason::Resigned => "resigned",
            EndReason::WorkDone => "the work is done",
            EndReason::PremisesChanged => "what it rested on changed",
        }
    }
}

#[derive(Clone, Copy, Debug, PartialEq, Eq, Structural)]
pub enum AgreementState {
    Standing,
    Ended { at: Tick, why: EndReason },
}

#[derive(Clone, Copy, Debug, PartialEq, Eq, Structural)]
pub enum AgreementChange {
    Formed,
    Exercised,
    Renegotiated { from: Terms, to: Terms },
    Ended(EndReason),
}

/// One transition, and the deed that recorded it. The deed id is the join
/// between an agreement's own history and the community's.
#[derive(Clone, Copy, Debug, PartialEq, Eq, Structural)]
pub struct AgreementEvent {
    pub at: Tick,
    pub deed: DeedId,
    pub what: AgreementChange,
}

#[derive(Clone, Debug, PartialEq, Eq)]
pub struct Agreement {
    pub id: AgreementId,
    pub asker: SubjectId,
    pub holder: SubjectId,
    /// The work it was made for. Craft and grade bound what it covers.
    pub work: Work,
    pub terms: Terms,
    pub formed_at: Tick,
    pub state: AgreementState,
    pub history: Vec<AgreementEvent>,
}

/// Whether work falls inside what was agreed: the same craft, no harder than
/// the agreed grade, no more dangerous than the agreed cap.
pub open spec fn covers_spec(agreed: Work, terms: Terms, work: Work) -> bool {
    work.craft == agreed.craft && work.grade <= agreed.grade && work.danger <= terms.danger_cap
}

/// How many of these events are exercises.
pub open spec fn exercise_count(history: Seq<AgreementEvent>) -> nat
    decreases history.len(),
{
    if history.len() == 0 {
        0
    } else {
        exercise_count(history.drop_last()) + if history.last().what == AgreementChange::Exercised {
            1nat
        } else {
            0nat
        }
    }
}

proof fn lemma_exercise_count_bound(history: Seq<AgreementEvent>)
    ensures
        exercise_count(history) <= history.len(),
    decreases history.len(),
{
    if history.len() > 0 {
        lemma_exercise_count_bound(history.drop_last());
    }
}

impl Agreement {
    pub fn standing(&self) -> (b: bool)
        ensures
            b == (self.state == AgreementState::Standing),
    {
        match self.state {
            AgreementState::Standing => true,
            _ => false,
        }
    }

    pub fn party(&self, subject: SubjectId) -> (b: bool)
        ensures
            b == (subject == self.asker || subject == self.holder),
    {
        subject == self.asker || subject == self.holder
    }

    /// The other name on it.
    pub fn other(&self, subject: SubjectId) -> (o: SubjectId)
        ensures
            o == (if subject == self.holder {
                self.asker
            } else {
                self.holder
            }),
    {
        if subject == self.holder {
            self.asker
        } else {
            self.holder
        }
    }

    pub fn covers(&self, work: &Work) -> (b: bool)
        ensures
            b == covers_spec(self.work, self.terms, *work),
    {
        work.craft == self.work.craft && work.grade <= self.work.grade && work.danger
            <= self.terms.danger_cap
    }

    pub fn append(&mut self, at: Tick, deed: DeedId, what: AgreementChange)
        ensures
            final(self).history@ == old(self).history@.push(AgreementEvent { at, deed, what }),
            final(self).id == old(self).id,
            final(self).asker == old(self).asker,
            final(self).holder == old(self).holder,
            final(self).work == old(self).work,
            final(self).terms == old(self).terms,
            final(self).formed_at == old(self).formed_at,
            final(self).state == old(self).state,
    {
        self.history.push(AgreementEvent { at, deed, what });
    }

    /// How many times it has been exercised. The measure of a routine.
    pub fn exercises(&self) -> (n: usize)
        ensures
            n == exercise_count(self.history@),
    {
        let mut n: usize = 0;
        let mut i: usize = 0;
        while i < self.history.len()
            invariant
                i <= self.history@.len(),
                n == exercise_count(self.history@.subrange(0, i as int)),
            decreases self.history@.len() - i,
        {
            proof {
                assert(self.history@.subrange(0, i + 1).drop_last() =~= self.history@.subrange(
                    0,
                    i as int,
                ));
                lemma_exercise_count_bound(self.history@.subrange(0, i as int));
            }
            if self.history[i].what == AgreementChange::Exercised {
                n = n + 1;
            }
            i = i + 1;
        }
        proof {
            assert(self.history@.subrange(0, i as int) =~= self.history@);
        }
        n
    }
}

/// An agreement bounds the work it covers: work of another craft, of a
/// higher grade than was agreed, or more dangerous than the agreed cap is
/// never covered, and work of the agreed craft within both bounds always is.
pub proof fn law_only_work_within_the_bounds_is_covered(agreed: Work, terms: Terms, work: Work)
    ensures
        work.grade > agreed.grade ==> !covers_spec(agreed, terms, work),
        work.craft != agreed.craft ==> !covers_spec(agreed, terms, work),
        work.danger > terms.danger_cap ==> !covers_spec(agreed, terms, work),
        work.craft == agreed.craft && work.grade <= agreed.grade && work.danger <= terms.danger_cap
            ==> covers_spec(agreed, terms, work),
{
}

/// What an agreement covers is closed under easing the work: covered work
/// stays covered at a lower grade or a lower danger of the same craft.
pub proof fn law_easier_work_stays_covered(agreed: Work, terms: Terms, work: Work, easier: Work)
    requires
        covers_spec(agreed, terms, work),
        easier.craft == work.craft,
        easier.grade <= work.grade,
        easier.danger <= work.danger,
    ensures
        covers_spec(agreed, terms, easier),
        easier.grade <= agreed.grade,
{
}

} // verus!
