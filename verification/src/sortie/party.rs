//! Who comes along, on what standing, and what governs a tag-in.
//!
//! Participation is negotiated, never assigned. A companion's part exists
//! only because an agreement stands: a fresh one formed at departure for
//! the expedition itself, or a standing one whose work covers the part. A
//! refusal at departure means the sortie goes without them.
//!
//! The pact names the agreement and the successor, nothing else. The
//! condition, the played body going down, lives in the sortie's law, and
//! the pact fires only while its agreement stands.

use vstd::prelude::*;

use crate::identity::{SubjectId, Tick};
use crate::social::agreement::{covers_spec, AgreementId, AgreementState};
use crate::social::deed::{Deed, DeedId, DeedKind};
use crate::social::offer::{Offer, Terms, Work};
use crate::social::relation::{fits, moves, standing_of};
use crate::social::response::{views, Response, RulingKind, Verdict};
use crate::social::society::{lemma_society_log_numbered, verdict_kind, SocialError, Society};
use crate::social::willing::law_unrelated_deed_keeps_the_answer;

verus! {

/// A companion's agreed part on the march: which driver moves them, and
/// under which agreement they are moving at all.
#[derive(Clone, Copy, Debug, PartialEq, Eq, Structural)]
pub enum Part {
    /// Ranges ahead toward the party's goal, up to a fixed lead.
    Scout { under: AgreementId },
    /// Trails the played body; goes to the downed; tends within reach.
    Healer { under: AgreementId },
}

pub open spec fn under_spec(part: Part) -> AgreementId {
    match part {
        Part::Scout { under } => under,
        Part::Healer { under } => under,
    }
}

impl Part {
    pub fn under(&self) -> (under: AgreementId)
        ensures
            under == under_spec(*self),
    {
        match self {
            Part::Scout { under } => *under,
            Part::Healer { under } => *under,
        }
    }
}

/// The tag-in pact: under this agreement, this companion takes over when
/// the played body is downed.
#[derive(Clone, Copy, Debug, PartialEq, Eq, Structural)]
pub struct Pact {
    pub under: AgreementId,
    pub successor: SubjectId,
}

/// How the departure went: every answer given, and the parts that hold.
#[derive(Clone, Debug)]
pub struct Departure {
    pub answers: Vec<Response>,
    pub parts: Vec<(SubjectId, Part)>,
    /// The expedition agreement formed at departure, if anyone took it.
    pub outing: Option<AgreementId>,
}

/// A deed that does not move a standing leaves it as it was.
pub proof fn lemma_unmoved_standing(log: Seq<Deed>, d: Deed, holder: SubjectId, toward: SubjectId)
    requires
        !moves(d, holder, toward),
    ensures
        standing_of(log.push(d), holder, toward) == standing_of(log, holder, toward),
{
    assert(log.push(d).drop_last() =~= log);
}

/// Negotiates the scout's part: a fresh offer for this expedition. The
/// answer is theirs; a refusal leaves the sortie without a scout and costs
/// them nothing. A part exists only where the expedition agreement formed.
pub fn negotiate_scout(
    society: &mut Society,
    asked_by: SubjectId,
    asked_of: SubjectId,
    work: Work,
    terms: Terms,
    at: Tick,
) -> (result: Result<(Response, Option<Part>), SocialError>)
    requires
        old(society).ready(),
        old(society).can_weigh(Offer { asked_by, asked_of, work, terms }),
        old(society).next_agreement_spec() < u64::MAX,
        old(society).deeds().len() + 1 < u64::MAX,
        old(society).offer_error(Offer { asked_by, asked_of, work, terms }) is None && old(society).weighed(
            Offer { asked_by, asked_of, work, terms },
        ).0 == Verdict::Accept ==> fits(
            old(society).deeds().push(
                Deed {
                    id: DeedId(old(society).deeds().len() as u64),
                    at,
                    doer: asked_of,
                    toward: Some(asked_by),
                    kind: DeedKind::OfferAccepted,
                },
            ),
        ),
    ensures
        final(society).wf(),
        forall|k: u64|
            #[trigger] old(society).agreements_spec().contains_key(k) ==> final(society).agreements_spec().contains_key(k)
                && final(society).agreements_spec()[k] == old(society).agreements_spec()[k],
        ({
            let offer = Offer { asked_by, asked_of, work, terms };
            match old(society).offer_error(offer) {
                Some(e) => result == Err::<(Response, Option<Part>), SocialError>(e) && *final(society)
                    == *old(society),
                None => {
                    let (verdict, premises) = old(society).weighed(offer);
                    let answer = result->Ok_0.0;
                    let id = AgreementId(old(society).next_agreement_spec());
                    &&& result is Ok
                    &&& answer.by == asked_of
                    &&& answer.at == at
                    &&& answer.verdict == verdict
                    &&& views(answer.premises@) == premises
                    &&& answer.recorded == DeedId(old(society).deeds().len() as u64)
                    &&& final(society).companions_spec() == old(society).companions_spec()
                    &&& final(society).deeds() == {
                        let answered = old(society).deeds().push(
                            Deed {
                                id: DeedId(old(society).deeds().len() as u64),
                                at,
                                doer: asked_of,
                                toward: Some(asked_by),
                                kind: verdict_kind(verdict),
                            },
                        );
                        if verdict == Verdict::Accept {
                            answered.push(
                                Deed {
                                    id: DeedId((old(society).deeds().len() + 1) as u64),
                                    at,
                                    doer: asked_of,
                                    toward: Some(asked_by),
                                    kind: DeedKind::AgreementFormed(id),
                                },
                            )
                        } else {
                            answered
                        }
                    }
                    &&& final(society).next_agreement_spec() == old(society).next_agreement_spec() + if verdict
                        == Verdict::Accept {
                        1int
                    } else {
                        0int
                    }
                    &&& verdict != Verdict::Accept ==> result->Ok_0.1 is None
                    &&& verdict == Verdict::Accept ==> result->Ok_0.1 == Some(Part::Scout { under: id })
                    &&& match result->Ok_0.1 {
                        None => final(society).agreements_spec() == old(society).agreements_spec(),
                        Some(part) => {
                            let formed = final(society).agreements_spec()[id.0];
                            &&& verdict == Verdict::Accept
                            &&& part == Part::Scout { under: id }
                            &&& final(society).agreements_spec().contains_key(id.0)
                            &&& formed.asker == asked_by
                            &&& formed.holder == asked_of
                            &&& formed.work == work
                            &&& formed.terms == terms
                            &&& formed.state == AgreementState::Standing
                        },
                    }
                },
            }
        }),
{
    let offer = Offer::new(asked_by, asked_of, work, terms);
    let answer = match society.consider(&offer, at) {
        Err(e) => return Err(e),
        Ok(answer) => answer,
    };
    if answer.verdict != Verdict::Accept {
        return Ok((answer, None));
    }
    proof {
        let d = society.deeds().last();
        let companion = old(society).companions_spec()[asked_of.0];
        lemma_unmoved_standing(old(society).deeds(), d, asked_of, asked_by);
        assert(society.deeds().drop_last() =~= old(society).deeds());
        lemma_society_log_numbered(*old(society));
        law_unrelated_deed_keeps_the_answer(
            old(society).deeds(),
            d,
            companion.skills@,
            companion.caution,
            asked_of,
            asked_by,
            work,
            terms,
        );
    }
    let ruling = match society.form(&offer, at) {
        Err(e) => return Err(e),
        Ok(ruling) => ruling,
    };
    match ruling.kind {
        RulingKind::Formed(id) => Ok((answer, Some(Part::Scout { under: id }))),
        _ => Ok((answer, None)),
    }
}

/// The healer's part rides a standing agreement: verified, not formed. The
/// agreement must stand and its work must cover the tending, or there is
/// no healer on the march.
pub fn healer_part(society: &Society, under: AgreementId, tend: &Work) -> (part: Option<Part>)
    requires
        society.wf(),
    ensures
        part == (if society.agreements_spec().contains_key(under.0)
            && society.agreements_spec()[under.0].state == AgreementState::Standing && covers_spec(
            society.agreements_spec()[under.0].work,
            society.agreements_spec()[under.0].terms,
            *tend,
        ) {
            Some(Part::Healer { under })
        } else {
            None
        }),
{
    match society.agreement(under) {
        None => None,
        Some(agreement) => if agreement.standing() && agreement.covers(tend) {
            Some(Part::Healer { under })
        } else {
            None
        },
    }
}

} // verus!
