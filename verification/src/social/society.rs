//! The willingness owner's whole state, and the calls that move it.
//!
//! Ordered containers throughout, integers throughout, no clocks and no
//! randomness: the same society asked the same thing at the same tick gives
//! the same answer with the same premises.
//!
//! Standing is not stored. It is folded out of the deed log on each call, so
//! there is no second copy to fall out of step with the history.

use vstd::prelude::*;

use crate::identity::{SubjectId, Tick};
use crate::keyed::{lemma_map_of_index, Keyed};
use crate::social::agreement::{
    covers_spec, Agreement, AgreementChange, AgreementEvent, AgreementId, AgreementState, EndReason,
};
use crate::social::agreement::end_phrase;
use crate::social::companion::{craft_name, Companion};
use crate::social::deed::deed_phrase;
use crate::social::wording::{decimal, plus_signed, push_decimal, push_plus_signed, push_signed, signed};
use vstd::string::*;
use crate::social::deed::{Deed, DeedId, DeedKind, DeedLog};
use crate::social::offer::{Offer, Terms, Work};
use crate::social::relation::{fits, fold_room, lemma_self_is_stranger, listed, standing_of, Relations, Standing, StandingView};
use crate::social::response::{views, Premise, PremiseView, Response, Ruling, RulingKind, Verdict};
use crate::social::willing::{
    bearable, bearable_spec, evidence, evidence_spec, routine_spec, weigh, weigh_fits, weigh_routine,
    weigh_spec,
};

verus! {

#[derive(Clone, Copy, Debug, PartialEq, Eq, Structural)]
pub enum SocialError {
    NoSuchCompanion(SubjectId),
    NoSuchAgreement(AgreementId),
    AlreadyEnded(AgreementId),
    /// Someone tried to change an arrangement they are not named on.
    NotAParty(SubjectId),
}

/// The deed an answer is recorded as.
pub open spec fn verdict_kind(verdict: Verdict) -> DeedKind {
    match verdict {
        Verdict::Accept => DeedKind::OfferAccepted,
        Verdict::Refuse => DeedKind::OfferRefused,
        Verdict::Counteroffer(_) => DeedKind::OfferCountered,
    }
}

/// The deed an agreement transition is recorded as.
pub open spec fn change_kind(change: AgreementChange, id: AgreementId) -> DeedKind {
    match change {
        AgreementChange::Formed => DeedKind::AgreementFormed(id),
        AgreementChange::Exercised => DeedKind::PerformedUnderAgreement(id),
        AgreementChange::Renegotiated { .. } => DeedKind::AgreementRenegotiated(id),
        AgreementChange::Ended(_) => DeedKind::AgreementEnded(id),
    }
}

/// Whether an agreement event names a deed in the log made at the same tick
/// and of the matching kind.
pub open spec fn event_recorded(deeds: Seq<Deed>, id: AgreementId, event: AgreementEvent) -> bool {
    &&& event.deed.0 < deeds.len()
    &&& deeds[event.deed.0 as int].at == event.at
    &&& deeds[event.deed.0 as int].kind == change_kind(event.what, id)
}

/// One premise as a line a player reads, given how to name people.
pub open spec fn line_of(names: spec_fn(SubjectId) -> Seq<char>, premise: PremiseView) -> Seq<char> {
    match premise {
        PremiseView::Deed { at, doer, kind, trust, affinity, .. } => "tick "@ + decimal(at.0 as nat)
            + ": "@ + names(doer) + " "@ + deed_phrase(kind) + " (trust "@ + plus_signed(trust as int)
            + ", liking "@ + plus_signed(affinity as int) + ")"@,
        PremiseView::Standing { toward, trust, affinity, from_deeds } => "where I stand with "@ + names(
            toward,
        ) + ": trust "@ + signed(trust as int) + ", liking "@ + signed(affinity as int) + ", out of "@
            + decimal(from_deeds.len()) + " deeds"@,
        PremiseView::Confidence { craft, demanded, held, margin } => craft_name(craft) + " at grade "@
            + decimal(demanded as nat) + "; I hold "@ + decimal(held as nat) + " ("@ + plus_signed(
            margin as int,
        ) + ")"@,
        PremiseView::TrustAsked { danger, asked, held, met } => "danger "@ + decimal(danger as nat)
            + " asks trust "@ + signed(asked as int) + "; I hold "@ + signed(held as int) + " ("@ + (
        if met {
            "enough"@
        } else {
            "not enough"@
        }) + ")"@,
        PremiseView::DangerWeighed { danger, bearable, affinity, caution, borne } => "danger "@
            + decimal(danger as nat) + " against the "@ + signed(bearable as int)
            + " I would bear for them (liking "@ + signed(affinity as int) + ", caution "@ + signed(
            caution as int,
        ) + "): "@ + (if borne {
            "within me"@
        } else {
            "past me"@
        }),
        PremiseView::AgreementTerm { share, danger_cap, covers, .. } => "our arrangement: share "@
            + decimal(share as nat) + ", up to danger "@ + decimal(danger_cap as nat) + " ("@ + (
        if covers {
            "this fits"@
        } else {
            "this is not that"@
        }) + ")"@,
        PremiseView::TermChange { from, to, .. } => "terms: share "@ + decimal(from.share as nat)
            + " -> "@ + decimal(to.share as nat) + ", danger cap "@ + decimal(from.danger_cap as nat)
            + " -> "@ + decimal(to.danger_cap as nat),
        PremiseView::Ending { why, .. } => "ending: "@ + end_phrase(why),
    }
}

/// `new` is `old` with at most the agreement under key `k` changed.
pub open spec fn changed_one(old: Map<u64, Agreement>, new: Map<u64, Agreement>, k: u64) -> bool {
    &&& new.dom() == old.dom()
    &&& forall|j: u64| j != k && #[trigger] old.contains_key(j) ==> new[j] == old[j]
}

/// The same agreement in everything but its terms, state, and history.
pub open spec fn same_but_history(a: Agreement, b: Agreement) -> bool {
    &&& b.id == a.id
    &&& b.asker == a.asker
    &&& b.holder == a.holder
    &&& b.work == a.work
    &&& b.formed_at == a.formed_at
}

#[derive(Clone, Debug, PartialEq, Eq)]
pub struct Society {
    companions: Keyed<Companion>,
    log: DeedLog,
    agreements: Keyed<Agreement>,
    next_agreement: u64,
}

impl Society {
    pub closed spec fn companions_spec(&self) -> Map<u64, Companion> {
        self.companions.view()
    }

    pub closed spec fn deeds(&self) -> Seq<Deed> {
        self.log.deeds_spec()
    }

    pub closed spec fn agreements_spec(&self) -> Map<u64, Agreement> {
        self.agreements.view()
    }

    pub closed spec fn next_agreement_spec(&self) -> u64 {
        self.next_agreement
    }

    pub closed spec fn stores_wf(&self) -> bool {
        &&& self.companions.wf()
        &&& self.agreements.wf()
        &&& self.log.wf()
    }

    /// Every transition of every agreement is a deed in the log, made at the
    /// event's tick and of the matching kind.
    pub open spec fn recorded(&self) -> bool {
        forall|k: u64, i: int|
            #![trigger self.agreements_spec()[k].history@[i]]
            self.agreements_spec().contains_key(k) && 0 <= i < self.agreements_spec()[k].history@.len()
                ==> event_recorded(self.deeds(), AgreementId(k), self.agreements_spec()[k].history@[i])
    }

    pub open spec fn wf(&self) -> bool {
        &&& self.stores_wf()
        &&& forall|k: u64| #[trigger]
            self.companions_spec().contains_key(k) ==> self.companions_spec()[k].subject.0 == k
        &&& forall|k: u64| #[trigger]
            self.agreements_spec().contains_key(k) ==> self.agreements_spec()[k].id.0 == k
                && k < self.next_agreement_spec()
        &&& forall|k: u64| k < self.next_agreement_spec() ==> #[trigger] self.agreements_spec().contains_key(k)
        &&& self.recorded()
    }

    /// Room for one more deed, and every standing the log folds to fits.
    pub open spec fn ready(&self) -> bool {
        &&& self.wf()
        &&& fits(self.deeds())
        &&& self.deeds().len() < u64::MAX
    }

    pub open spec fn standing_spec(&self, holder: SubjectId, toward: SubjectId) -> StandingView {
        standing_of(self.deeds(), holder, toward)
    }

    /// How the one asked weighs an offer, as the rule has it.
    pub open spec fn weighed(&self, offer: Offer) -> (Verdict, Seq<PremiseView>) {
        let companion = self.companions_spec()[offer.asked_of.0];
        weigh_spec(
            companion.skills@,
            companion.caution,
            offer.asked_by,
            self.standing_spec(offer.asked_of, offer.asked_by),
            self.deeds(),
            offer.work,
            offer.terms,
        )
    }

    /// Where the rule reaches its third gate for this offer, its arithmetic
    /// fits.
    pub open spec fn can_weigh(&self, offer: Offer) -> bool {
        let companion = self.companions_spec()[offer.asked_of.0];
        self.companions_spec().contains_key(offer.asked_of.0) ==> weigh_fits(
            companion.skills@,
            companion.caution,
            self.standing_spec(offer.asked_of, offer.asked_by),
            offer.work,
        )
    }

    /// The error an offer meets before anyone weighs it, if any.
    pub open spec fn offer_error(&self, offer: Offer) -> Option<SocialError> {
        if !self.companions_spec().contains_key(offer.asked_by.0) {
            Some(SocialError::NoSuchCompanion(offer.asked_by))
        } else if !self.companions_spec().contains_key(offer.asked_of.0) {
            Some(SocialError::NoSuchCompanion(offer.asked_of))
        } else {
            None
        }
    }

    /// The error asking under an agreement meets first, if any.
    pub open spec fn live_error(&self, id: AgreementId) -> Option<SocialError> {
        if !self.agreements_spec().contains_key(id.0) {
            Some(SocialError::NoSuchAgreement(id))
        } else if self.agreements_spec()[id.0].state != AgreementState::Standing {
            Some(SocialError::AlreadyEnded(id))
        } else {
            None
        }
    }

    pub fn new() -> (society: Self)
        ensures
            society.wf(),
            society.companions_spec() == Map::<u64, Companion>::empty(),
            society.deeds() == Seq::<Deed>::empty(),
            society.agreements_spec() == Map::<u64, Agreement>::empty(),
            society.next_agreement_spec() == 0,
    {
        Society {
            companions: Keyed::new(),
            log: DeedLog::new(),
            agreements: Keyed::new(),
            next_agreement: 0,
        }
    }

    /// Welcomes a peer. The played character is welcomed the same way as
    /// anyone else.
    pub fn welcome(&mut self, companion: Companion)
        requires
            old(self).wf(),
        ensures
            final(self).wf(),
            final(self).companions_spec() == old(self).companions_spec().insert(
                companion.subject.0,
                companion,
            ),
            final(self).deeds() == old(self).deeds(),
            final(self).agreements_spec() == old(self).agreements_spec(),
            final(self).next_agreement_spec() == old(self).next_agreement_spec(),
    {
        let key = companion.subject.0;
        self.companions.insert(key, companion);
        proof {
            assert forall|k: u64| #[trigger] self.companions_spec().contains_key(k) implies self.companions_spec()[k].subject.0 == k by {
                if k != key {
                    assert(old(self).companions_spec().contains_key(k));
                }
            }
        }
    }

    pub fn companion(&self, subject: SubjectId) -> (companion: Option<&Companion>)
        requires
            self.wf(),
        ensures
            match companion {
                Some(c) => self.companions_spec().contains_key(subject.0) && *c
                    == self.companions_spec()[subject.0],
                None => !self.companions_spec().contains_key(subject.0),
            },
    {
        self.companions.get(subject.0)
    }

    /// Every companion, in subject order.
    pub fn companions(&self) -> (all: Vec<&Companion>)
        requires
            self.wf(),
        ensures
            forall|i: int, j: int|
                0 <= i < j < all@.len() ==> (#[trigger] all@[i]).subject.0 < (#[trigger] all@[j]).subject.0,
            forall|i: int|
                0 <= i < all@.len() ==> self.companions_spec().contains_key((#[trigger] all@[i]).subject.0)
                    && *all@[i] == self.companions_spec()[all@[i].subject.0],
            forall|k: u64|
                self.companions_spec().contains_key(k) ==> exists|i: int|
                    0 <= i < all@.len() && (#[trigger] all@[i]).subject.0 == k,
    {
        let all = self.companions.values();
        proof {
            let s = self.companions.entries_spec();
            assert forall|i: int| 0 <= i < all@.len() implies (#[trigger] all@[i]).subject.0 == s[i].0
                && self.companions_spec().contains_key(all@[i].subject.0) && *all@[i]
                == self.companions_spec()[all@[i].subject.0] by {
                lemma_map_of_index(s, i);
                assert(self.companions_spec().contains_key(s[i].0));
            }
            assert forall|i: int, j: int| 0 <= i < j < all@.len() implies (#[trigger] all@[i]).subject.0
                < (#[trigger] all@[j]).subject.0 by {
                assert(all@[i].subject.0 == s[i].0);
                assert(all@[j].subject.0 == s[j].0);
            }
            assert forall|k: u64| self.companions_spec().contains_key(k) implies exists|i: int|
                0 <= i < all@.len() && (#[trigger] all@[i]).subject.0 == k by {
                let i = choose|i: int| 0 <= i < s.len() && #[trigger] s[i].0 == k;
                assert(all@[i].subject.0 == s[i].0);
            }
        }
        all
    }

    /// A name to put in a sentence: theirs, or "someone".
    pub fn name_of(&self, subject: SubjectId) -> (name: &str)
        requires
            self.wf(),
        ensures
            name@ == (if self.companions_spec().contains_key(subject.0) {
                self.companions_spec()[subject.0].name@
            } else {
                "someone"@
            }),
    {
        match self.companions.get(subject.0) {
            Some(companion) => companion.name.as_str(),
            None => "someone",
        }
    }

    pub fn log(&self) -> (log: &DeedLog)
        requires
            self.wf(),
        ensures
            log.wf(),
            log.deeds_spec() == self.deeds(),
    {
        &self.log
    }

    /// History happens outside this module too. Anything that befalls
    /// people is recorded here, and standing follows from it.
    pub fn record(&mut self, at: Tick, doer: SubjectId, toward: Option<SubjectId>, kind: DeedKind) -> (id:
        DeedId)
        requires
            old(self).wf(),
            old(self).deeds().len() < u64::MAX,
        ensures
            final(self).wf(),
            id == DeedId(old(self).deeds().len() as u64),
            final(self).deeds() == old(self).deeds().push(Deed { id, at, doer, toward, kind }),
            final(self).companions_spec() == old(self).companions_spec(),
            final(self).agreements_spec() == old(self).agreements_spec(),
            final(self).next_agreement_spec() == old(self).next_agreement_spec(),
    {
        let id = self.log.record(at, doer, toward, kind);
        proof {
            assert(self.companions_spec() == old(self).companions_spec());
            assert(self.agreements_spec() == old(self).agreements_spec());
            assert forall|k: u64, i: int|
                #![trigger self.agreements_spec()[k].history@[i]]
                self.agreements_spec().contains_key(k) && 0 <= i
                    < self.agreements_spec()[k].history@.len() implies event_recorded(
                self.deeds(),
                AgreementId(k),
                self.agreements_spec()[k].history@[i],
            ) by {
                let event = old(self).agreements_spec()[k].history@[i];
                assert(event_recorded(old(self).deeds(), AgreementId(k), event));
                assert(self.deeds()[event.deed.0 as int] == old(self).deeds()[event.deed.0 as int]);
            }
        }
        id
    }

    pub fn relations(&self) -> (relations: Relations)
        requires
            self.wf(),
            fits(self.deeds()),
        ensures
            relations.derived_from(self.deeds()),
    {
        Relations::derive(&self.log)
    }

    /// Whether the log has room for `n` more deeds: every standing it folds
    /// through fits, with five to spare either way per deed to come.
    pub fn has_room(&self, n: u64) -> (room: bool)
        requires
            self.wf(),
        ensures
            room == fold_room(self.deeds(), n as nat),
    {
        let log = self.log();
        proof {
            lemma_self_is_stranger(self.deeds(), SubjectId(0));
        }
        if n > 6553 || log.len() as u64 >= u64::MAX - n {
            return false;
        }
        let relations = match Relations::try_derive(log) {
            Some(r) => r,
            None => return false,
        };
        let all = relations.iter();
        proof {
            relations.law_pairs_are_the_recorded_ones();
        }
        let low: i32 = -32768 + 5 * (n as i32);
        let high: i32 = 32767 - 5 * (n as i32);
        let mut k: usize = 0;
        while k < all.len()
            invariant
                k <= all@.len(),
                relations.derived_from(self.deeds()),
                all@.len() == relations.pairs().len(),
                forall|j: int| 0 <= j < all@.len() ==> (#[trigger] all@[j]).0 == relations.pairs()[j].0 && *all@[j].1
                    == relations.pairs()[j].1,
                low == i16::MIN + 5 * n,
                high == i16::MAX - 5 * n,
                forall|j: int|
                    0 <= j < k ==> {
                        let st = (#[trigger] relations.pairs()[j]).1;
                        low <= st.trust <= high && low <= st.affinity <= high
                    },
            decreases all@.len() - k,
        {
            let standing = all[k].1;
            let (trust, affinity) = (standing.trust as i32, standing.affinity as i32);
            if trust < low || trust > high || affinity < low || affinity > high {
                proof {
                    let p = relations.pairs()[k as int];
                    assert(listed(relations.pairs(), p.0.0.0, p.0.1.0));
                    Relations::lemma_pair_standing(relations, k as int);
                    assert(standing_of(self.deeds(), p.0.0, p.0.1).trust == standing@.trust);
                }
                return false;
            }
            k = k + 1;
        }
        proof {
            assert forall|h: SubjectId, t: SubjectId| #![trigger standing_of(self.deeds(), h, t)] {
                let st = standing_of(self.deeds(), h, t);
                &&& i16::MIN + 5 * n <= st.trust <= i16::MAX - 5 * n
                &&& i16::MIN + 5 * n <= st.affinity <= i16::MAX - 5 * n
            } by {
                assert(relations.standing_at(h, t) == standing_of(self.deeds(), h, t));
                if relations.present(h.0, t.0) {
                    assert(listed(relations.pairs(), h.0, t.0));
                    let j = choose|j: int| 0 <= j < relations.pairs().len() && #[trigger] relations.pairs()[j].0 == (SubjectId(h.0), SubjectId(t.0));
                    Relations::lemma_pair_standing(relations, j);
                }
            }
        }
        true
    }

    pub fn standing(&self, holder: SubjectId, toward: SubjectId) -> (standing: Standing)
        requires
            self.wf(),
            fits(self.deeds()),
        ensures
            standing@ == self.standing_spec(holder, toward),
    {
        let relations = self.relations();
        relations.of(holder, toward)
    }

    pub fn agreement(&self, id: AgreementId) -> (agreement: Option<&Agreement>)
        requires
            self.wf(),
        ensures
            match agreement {
                Some(a) => self.agreements_spec().contains_key(id.0) && *a
                    == self.agreements_spec()[id.0],
                None => !self.agreements_spec().contains_key(id.0),
            },
    {
        self.agreements.get(id.0)
    }

    /// Every agreement, in id order.
    pub fn agreements(&self) -> (all: Vec<&Agreement>)
        requires
            self.wf(),
        ensures
            forall|i: int, j: int|
                0 <= i < j < all@.len() ==> (#[trigger] all@[i]).id.0 < (#[trigger] all@[j]).id.0,
            forall|i: int|
                0 <= i < all@.len() ==> self.agreements_spec().contains_key((#[trigger] all@[i]).id.0)
                    && *all@[i] == self.agreements_spec()[all@[i].id.0],
            forall|k: u64|
                self.agreements_spec().contains_key(k) ==> exists|i: int|
                    0 <= i < all@.len() && (#[trigger] all@[i]).id.0 == k,
    {
        let all = self.agreements.values();
        proof {
            let s = self.agreements.entries_spec();
            assert forall|i: int| 0 <= i < all@.len() implies (#[trigger] all@[i]).id.0 == s[i].0
                && self.agreements_spec().contains_key(all@[i].id.0) && *all@[i]
                == self.agreements_spec()[all@[i].id.0] by {
                lemma_map_of_index(s, i);
                assert(self.agreements_spec().contains_key(s[i].0));
            }
            assert forall|i: int, j: int| 0 <= i < j < all@.len() implies (#[trigger] all@[i]).id.0
                < (#[trigger] all@[j]).id.0 by {
                assert(all@[i].id.0 == s[i].0);
                assert(all@[j].id.0 == s[j].0);
            }
            assert forall|k: u64| self.agreements_spec().contains_key(k) implies exists|i: int|
                0 <= i < all@.len() && (#[trigger] all@[i]).id.0 == k by {
                let i = choose|i: int| 0 <= i < s.len() && #[trigger] s[i].0 == k;
                assert(all@[i].id.0 == s[i].0);
            }
        }
        all
    }

    fn known(&self, subject: SubjectId) -> (companion: Result<&Companion, SocialError>)
        requires
            self.wf(),
        ensures
            match companion {
                Ok(c) => self.companions_spec().contains_key(subject.0) && *c
                    == self.companions_spec()[subject.0],
                Err(e) => !self.companions_spec().contains_key(subject.0) && e
                    == SocialError::NoSuchCompanion(subject),
            },
    {
        match self.companions.get(subject.0) {
            Some(companion) => Ok(companion),
            None => Err(SocialError::NoSuchCompanion(subject)),
        }
    }

    fn live(&self, id: AgreementId) -> (agreement: Result<&Agreement, SocialError>)
        requires
            self.wf(),
        ensures
            match agreement {
                Ok(a) => self.live_error(id) is None && *a == self.agreements_spec()[id.0],
                Err(e) => self.live_error(id) == Some(e),
            },
    {
        let agreement = match self.agreements.get(id.0) {
            Some(agreement) => agreement,
            None => return Err(SocialError::NoSuchAgreement(id)),
        };
        if !agreement.standing() {
            return Err(SocialError::AlreadyEnded(id));
        }
        Ok(agreement)
    }

    /// Puts an offer to someone. The answer is theirs; a refusal is an answer
    /// and not an error, and answering is itself a deed.
    pub fn consider(&mut self, offer: &Offer, at: Tick) -> (result: Result<Response, SocialError>)
        requires
            old(self).ready(),
            old(self).can_weigh(*offer),
        ensures
            final(self).wf(),
            match old(self).offer_error(*offer) {
                Some(e) => result == Err::<Response, SocialError>(e) && *final(self) == *old(self),
                None => {
                    let (verdict, premises) = old(self).weighed(*offer);
                    let id = DeedId(old(self).deeds().len() as u64);
                    &&& result is Ok
                    &&& result->Ok_0.by == offer.asked_of
                    &&& result->Ok_0.at == at
                    &&& result->Ok_0.verdict == verdict
                    &&& views(result->Ok_0.premises@) == premises
                    &&& result->Ok_0.recorded == id
                    &&& final(self).deeds() == old(self).deeds().push(
                        Deed {
                            id,
                            at,
                            doer: offer.asked_of,
                            toward: Some(offer.asked_by),
                            kind: verdict_kind(verdict),
                        },
                    )
                    &&& final(self).companions_spec() == old(self).companions_spec()
                    &&& final(self).agreements_spec() == old(self).agreements_spec()
                    &&& final(self).next_agreement_spec() == old(self).next_agreement_spec()
                },
            },
    {
        self.known(offer.asked_by)?;
        let companion = self.known(offer.asked_of)?;
        let standing = self.standing(offer.asked_of, offer.asked_by);
        let weighed = weigh(
            companion,
            offer.asked_by,
            &standing,
            &self.log,
            &offer.work,
            &offer.terms,
        );
        let kind = match weighed.verdict {
            Verdict::Accept => DeedKind::OfferAccepted,
            Verdict::Refuse => DeedKind::OfferRefused,
            Verdict::Counteroffer(_) => DeedKind::OfferCountered,
        };
        let recorded = self.record(at, offer.asked_of, Some(offer.asked_by), kind);
        Ok(
            Response {
                by: offer.asked_of,
                at,
                verdict: weighed.verdict,
                premises: weighed.premises,
                recorded,
            },
        )
    }

    /// Replaces agreement `id` with `agreement`, which differs from it only
    /// by one event naming the newest deed, and perhaps in state and terms.
    fn put_back(&mut self, agreement: Agreement)
        requires
            old(self).stores_wf(),
            agreement.id.0 < old(self).next_agreement_spec(),
            forall|i: int|
                0 <= i < agreement.history@.len() ==> event_recorded(
                    old(self).deeds(),
                    agreement.id,
                    #[trigger] agreement.history@[i],
                ),
            forall|k: u64| #[trigger]
                old(self).companions_spec().contains_key(k) ==> old(self).companions_spec()[k].subject.0 == k,
            forall|k: u64| #[trigger]
                old(self).agreements_spec().contains_key(k) ==> old(self).agreements_spec()[k].id.0 == k
                    && k < old(self).next_agreement_spec(),
            forall|k: u64|
                k < old(self).next_agreement_spec() && k != agreement.id.0 ==> #[trigger] old(
                    self,
                ).agreements_spec().contains_key(k),
            forall|k: u64, i: int|
                #![trigger old(self).agreements_spec()[k].history@[i]]
                k != agreement.id.0 && old(self).agreements_spec().contains_key(k) && 0 <= i
                    < old(self).agreements_spec()[k].history@.len() ==> event_recorded(
                    old(self).deeds(),
                    AgreementId(k),
                    old(self).agreements_spec()[k].history@[i],
                ),
        ensures
            final(self).wf(),
            final(self).agreements_spec() == old(self).agreements_spec().insert(
                agreement.id.0,
                agreement,
            ),
            final(self).deeds() == old(self).deeds(),
            final(self).companions_spec() == old(self).companions_spec(),
            final(self).next_agreement_spec() == old(self).next_agreement_spec(),
    {
        let key = agreement.id.0;
        let ghost added = agreement;
        self.agreements.insert(key, agreement);
        proof {
            assert(self.companions_spec() == old(self).companions_spec());
            assert(self.deeds() == old(self).deeds());
            assert forall|k: u64| #[trigger] self.agreements_spec().contains_key(k) implies self.agreements_spec()[k].id.0 == k
                && k < self.next_agreement_spec() by {
                if k != key {
                    assert(old(self).agreements_spec().contains_key(k));
                }
            }
            assert forall|k: u64| k < self.next_agreement_spec() implies #[trigger] self.agreements_spec().contains_key(k) by {
                if k != key {
                    assert(old(self).agreements_spec().contains_key(k));
                }
            }
            assert forall|k: u64, i: int|
                #![trigger self.agreements_spec()[k].history@[i]]
                self.agreements_spec().contains_key(k) && 0 <= i
                    < self.agreements_spec()[k].history@.len() implies event_recorded(
                self.deeds(),
                AgreementId(k),
                self.agreements_spec()[k].history@[i],
            ) by {
                if k == key {
                    assert(self.agreements_spec()[k] == added);
                    assert(event_recorded(old(self).deeds(), added.id, added.history@[i]));
                } else {
                    assert(self.agreements_spec()[k] == old(self).agreements_spec()[k]);
                    assert(old(self).agreements_spec().contains_key(k));
                }
            }
        }
    }

    /// Forms a standing agreement on the offer's terms, if the offer is one
    /// they would take. An arrangement nobody accepted cannot be created:
    /// the weighing runs again and a declined form changes nothing.
    pub fn form(&mut self, offer: &Offer, at: Tick) -> (result: Result<Ruling, SocialError>)
        requires
            old(self).ready(),
            old(self).can_weigh(*offer),
            old(self).next_agreement_spec() < u64::MAX,
        ensures
            final(self).wf(),
            match old(self).offer_error(*offer) {
                Some(e) => result == Err::<Ruling, SocialError>(e) && *final(self) == *old(self),
                None => {
                    let (verdict, premises) = old(self).weighed(*offer);
                    if verdict != Verdict::Accept {
                        &&& result is Ok
                        &&& result->Ok_0.by == offer.asked_of
                        &&& result->Ok_0.at == at
                        &&& result->Ok_0.kind == RulingKind::Declined
                        &&& views(result->Ok_0.premises@) == premises
                        &&& result->Ok_0.recorded is None
                        &&& *final(self) == *old(self)
                    } else {
                        let id = AgreementId(old(self).next_agreement_spec());
                        let deed = DeedId(old(self).deeds().len() as u64);
                        let formed = final(self).agreements_spec()[id.0];
                        &&& result is Ok
                        &&& result->Ok_0.by == offer.asked_of
                        &&& result->Ok_0.at == at
                        &&& result->Ok_0.kind == RulingKind::Formed(id)
                        &&& views(result->Ok_0.premises@) == premises.push(
                            PremiseView::AgreementTerm {
                                agreement: id,
                                share: offer.terms.share,
                                danger_cap: offer.terms.danger_cap,
                                covers: true,
                            },
                        )
                        &&& result->Ok_0.recorded == Some(deed)
                        &&& final(self).deeds() == old(self).deeds().push(
                            Deed {
                                id: deed,
                                at,
                                doer: offer.asked_of,
                                toward: Some(offer.asked_by),
                                kind: DeedKind::AgreementFormed(id),
                            },
                        )
                        &&& final(self).agreements_spec().dom() == old(self).agreements_spec().dom().insert(id.0)
                        &&& forall|k: u64| k != id.0 && #[trigger] old(self).agreements_spec().contains_key(k)
                            ==> final(self).agreements_spec()[k] == old(self).agreements_spec()[k]
                        &&& formed.id == id
                        &&& formed.asker == offer.asked_by
                        &&& formed.holder == offer.asked_of
                        &&& formed.work == offer.work
                        &&& formed.terms == offer.terms
                        &&& formed.formed_at == at
                        &&& formed.state == AgreementState::Standing
                        &&& formed.history@ == seq![
                            AgreementEvent { at, deed, what: AgreementChange::Formed },
                        ]
                        &&& final(self).companions_spec() == old(self).companions_spec()
                        &&& final(self).next_agreement_spec() == old(self).next_agreement_spec() + 1
                    }
                },
            },
    {
        self.known(offer.asked_by)?;
        let companion = self.known(offer.asked_of)?;
        let standing = self.standing(offer.asked_of, offer.asked_by);
        let weighed = weigh(
            companion,
            offer.asked_by,
            &standing,
            &self.log,
            &offer.work,
            &offer.terms,
        );
        if !weighed.verdict.accepted() {
            return Ok(
                Ruling {
                    by: offer.asked_of,
                    at,
                    kind: RulingKind::Declined,
                    premises: weighed.premises,
                    recorded: None,
                },
            );
        }
        let id = AgreementId(self.next_agreement);
        let deed = self.record(at, offer.asked_of, Some(offer.asked_by), DeedKind::AgreementFormed(id));
        self.next_agreement = self.next_agreement + 1;
        let mut agreement = Agreement {
            id,
            asker: offer.asked_by,
            holder: offer.asked_of,
            work: offer.work,
            terms: offer.terms,
            formed_at: at,
            state: AgreementState::Standing,
            history: Vec::new(),
        };
        agreement.append(at, deed, AgreementChange::Formed);
        proof {
            assert(agreement.history@ =~= seq![
                AgreementEvent { at, deed, what: AgreementChange::Formed },
            ]);
            assert(!self.agreements_spec().contains_key(id.0));
        }
        self.put_back(agreement);
        let mut premises = weighed.premises;
        let ghost before = views(premises@);
        premises.push(
            Premise::AgreementTerm {
                agreement: id,
                share: offer.terms.share,
                danger_cap: offer.terms.danger_cap,
                covers: true,
            },
        );
        proof {
            assert(views(premises@) =~= before.push(
                PremiseView::AgreementTerm {
                    agreement: id,
                    share: offer.terms.share,
                    danger_cap: offer.terms.danger_cap,
                    covers: true,
                },
            ));
        }
        Ok(Ruling { by: offer.asked_of, at, kind: RulingKind::Formed(id), premises, recorded: Some(deed) })
    }

    /// Takes agreement `id` out for a change, keeping everything else
    /// well-formed.
    fn take(&mut self, id: AgreementId) -> (agreement: Agreement)
        requires
            old(self).wf(),
            old(self).agreements_spec().contains_key(id.0),
        ensures
            agreement == old(self).agreements_spec()[id.0],
            final(self).stores_wf(),
            final(self).agreements_spec() == old(self).agreements_spec().remove(id.0),
            final(self).deeds() == old(self).deeds(),
            final(self).companions_spec() == old(self).companions_spec(),
            final(self).next_agreement_spec() == old(self).next_agreement_spec(),
    {
        match self.agreements.remove(id.0) {
            Some(agreement) => agreement,
            None => {
                proof {
                    assert(false);
                }
                self.agreements.remove(id.0).unwrap()
            },
        }
    }

    /// Asks for work under an existing arrangement. Routine when the terms
    /// cover it and the premises still hold; still theirs to decline when
    /// they do not.
    pub fn exercise(&mut self, id: AgreementId, work: &Work, at: Tick) -> (result: Result<
        Ruling,
        SocialError,
    >)
        requires
            old(self).ready(),
        ensures
            final(self).wf(),
            match old(self).live_error(id) {
                Some(e) => result == Err::<Ruling, SocialError>(e) && *final(self) == *old(self),
                None => {
                    let a = old(self).agreements_spec()[id.0];
                    let covers = covers_spec(a.work, a.terms, *work);
                    let term = PremiseView::AgreementTerm {
                        agreement: id,
                        share: a.terms.share,
                        danger_cap: a.terms.danger_cap,
                        covers,
                    };
                    if !covers {
                        &&& result is Ok
                        &&& result->Ok_0.by == a.holder
                        &&& result->Ok_0.at == at
                        &&& result->Ok_0.kind == RulingKind::OutsideTerms
                        &&& views(result->Ok_0.premises@) == seq![term]
                        &&& result->Ok_0.recorded is None
                        &&& *final(self) == *old(self)
                    } else if !old(self).companions_spec().contains_key(a.holder.0) {
                        &&& result == Err::<Ruling, SocialError>(SocialError::NoSuchCompanion(a.holder))
                        &&& *final(self) == *old(self)
                    } else {
                        let c = old(self).companions_spec()[a.holder.0];
                        let (willing, weighing) = routine_spec(
                            c.skills@,
                            a.asker,
                            old(self).standing_spec(a.holder, a.asker),
                            old(self).deeds(),
                            *work,
                        );
                        &&& result is Ok
                        &&& result->Ok_0.by == a.holder
                        &&& result->Ok_0.at == at
                        &&& views(result->Ok_0.premises@) == seq![term] + weighing
                        &&& if !willing {
                            &&& result->Ok_0.kind == RulingKind::Declined
                            &&& result->Ok_0.recorded is None
                            &&& *final(self) == *old(self)
                        } else {
                            let deed = DeedId(old(self).deeds().len() as u64);
                            let b = final(self).agreements_spec()[id.0];
                            &&& result->Ok_0.kind == RulingKind::Performed
                            &&& result->Ok_0.recorded == Some(deed)
                            &&& final(self).deeds() == old(self).deeds().push(
                                Deed {
                                    id: deed,
                                    at,
                                    doer: a.holder,
                                    toward: Some(a.asker),
                                    kind: DeedKind::PerformedUnderAgreement(id),
                                },
                            )
                            &&& changed_one(old(self).agreements_spec(), final(self).agreements_spec(), id.0)
                            &&& same_but_history(a, b)
                            &&& b.state == a.state
                            &&& b.terms == a.terms
                            &&& b.history@ == a.history@.push(
                                AgreementEvent { at, deed, what: AgreementChange::Exercised },
                            )
                            &&& final(self).companions_spec() == old(self).companions_spec()
                            &&& final(self).next_agreement_spec() == old(self).next_agreement_spec()
                        }
                    }
                },
            },
    {
        let agreement = self.live(id)?;
        let (asker, holder, terms, covers) = (
            agreement.asker,
            agreement.holder,
            agreement.terms,
            agreement.covers(work),
        );
        let mut premises = Vec::new();
        premises.push(
            Premise::AgreementTerm {
                agreement: id,
                share: terms.share,
                danger_cap: terms.danger_cap,
                covers,
            },
        );
        let ghost term = premises@[0]@;
        proof {
            assert(views(premises@) =~= seq![term]);
        }
        if !covers {
            return Ok(Ruling { by: holder, at, kind: RulingKind::OutsideTerms, premises, recorded: None });
        }
        let companion = self.known(holder)?;
        let standing = self.standing(holder, asker);
        let (willing, weighing) = weigh_routine(companion, asker, &standing, &self.log, work);
        let ghost weighing_views = views(weighing@);
        let mut weighing = weighing;
        premises.append(&mut weighing);
        proof {
            assert(views(premises@) =~= seq![term] + weighing_views);
        }
        if !willing {
            return Ok(Ruling { by: holder, at, kind: RulingKind::Declined, premises, recorded: None });
        }
        let deed = self.record(at, holder, Some(asker), DeedKind::PerformedUnderAgreement(id));
        let mut agreement = self.take(id);
        let ghost before = agreement;
        agreement.append(at, deed, AgreementChange::Exercised);
        proof {
            assert forall|i: int| 0 <= i < agreement.history@.len() implies event_recorded(
                self.deeds(),
                agreement.id,
                #[trigger] agreement.history@[i],
            ) by {
                if i < before.history@.len() {
                    assert(agreement.history@[i] == before.history@[i]);
                }
            }
        }
        self.put_back(agreement);
        proof {
            assert(self.agreements_spec().dom() =~= old(self).agreements_spec().dom());
        }
        Ok(Ruling { by: holder, at, kind: RulingKind::Performed, premises, recorded: Some(deed) })
    }

    /// Whether a change asked by the asker can be weighed where the rule
    /// reaches its danger check.
    pub open spec fn can_weigh_change(&self, id: AgreementId, by: SubjectId) -> bool {
        let a = self.agreements_spec()[id.0];
        let c = self.companions_spec()[a.holder.0];
        self.agreements_spec().contains_key(id.0) && by == a.asker && self.companions_spec().contains_key(
            a.holder.0,
        ) ==> i16::MIN <= bearable_spec(
            self.standing_spec(a.holder, a.asker).affinity,
            c.caution as int,
        ) <= i16::MAX
    }

    /// Proposes different terms. When the asker proposes, the holder weighs
    /// them like any other ask and may decline. When the holder proposes,
    /// the asker takes them: the played side of a bargain is the player's
    /// own choice.
    pub fn propose_change(&mut self, id: AgreementId, by: SubjectId, terms: Terms, at: Tick) -> (result:
        Result<Ruling, SocialError>)
        requires
            old(self).ready(),
            old(self).can_weigh_change(id, by),
        ensures
            final(self).wf(),
            match old(self).live_error(id) {
                Some(e) => result == Err::<Ruling, SocialError>(e) && *final(self) == *old(self),
                None => {
                    let a = old(self).agreements_spec()[id.0];
                    let from = a.terms;
                    let change = PremiseView::TermChange { agreement: id, from, to: terms };
                    let other = if by == a.holder {
                        a.asker
                    } else {
                        a.holder
                    };
                    let c = old(self).companions_spec()[a.holder.0];
                    let standing = old(self).standing_spec(a.holder, a.asker);
                    let limit = bearable_spec(standing.affinity, c.caution as int);
                    let borne = terms.danger_cap as int <= limit && terms.share >= from.share;
                    let weighed = seq![change] + evidence_spec(old(self).deeds(), standing, a.asker).push(
                        PremiseView::DangerWeighed {
                            danger: terms.danger_cap,
                            bearable: limit as i16,
                            affinity: standing.affinity as i16,
                            caution: c.caution,
                            borne,
                        },
                    );
                    let premises = if by == a.asker {
                        weighed
                    } else {
                        seq![change]
                    };
                    if by != a.asker && by != a.holder {
                        result == Err::<Ruling, SocialError>(SocialError::NotAParty(by)) && *final(self)
                            == *old(self)
                    } else if by == a.asker && !old(self).companions_spec().contains_key(a.holder.0) {
                        result == Err::<Ruling, SocialError>(SocialError::NoSuchCompanion(a.holder))
                            && *final(self) == *old(self)
                    } else if by == a.asker && !borne {
                        &&& result is Ok
                        &&& result->Ok_0.by == a.holder
                        &&& result->Ok_0.at == at
                        &&& result->Ok_0.kind == RulingKind::Declined
                        &&& views(result->Ok_0.premises@) == premises
                        &&& result->Ok_0.recorded is None
                        &&& *final(self) == *old(self)
                    } else {
                        let deed = DeedId(old(self).deeds().len() as u64);
                        let b = final(self).agreements_spec()[id.0];
                        &&& result is Ok
                        &&& result->Ok_0.by == by
                        &&& result->Ok_0.at == at
                        &&& result->Ok_0.kind == RulingKind::Renegotiated { from, to: terms }
                        &&& views(result->Ok_0.premises@) == premises
                        &&& result->Ok_0.recorded == Some(deed)
                        &&& final(self).deeds() == old(self).deeds().push(
                            Deed {
                                id: deed,
                                at,
                                doer: by,
                                toward: Some(other),
                                kind: DeedKind::AgreementRenegotiated(id),
                            },
                        )
                        &&& changed_one(old(self).agreements_spec(), final(self).agreements_spec(), id.0)
                        &&& same_but_history(a, b)
                        &&& b.state == a.state
                        &&& b.terms == terms
                        &&& b.history@ == a.history@.push(
                            AgreementEvent {
                                at,
                                deed,
                                what: AgreementChange::Renegotiated { from, to: terms },
                            },
                        )
                        &&& final(self).companions_spec() == old(self).companions_spec()
                        &&& final(self).next_agreement_spec() == old(self).next_agreement_spec()
                    }
                },
            },
    {
        let agreement = self.live(id)?;
        if !agreement.party(by) {
            return Err(SocialError::NotAParty(by));
        }
        let (asker, holder, from) = (agreement.asker, agreement.holder, agreement.terms);
        let other = agreement.other(by);
        let mut premises = Vec::new();
        premises.push(Premise::TermChange { agreement: id, from, to: terms });
        let ghost change = premises@[0]@;
        proof {
            assert(views(premises@) =~= seq![change]);
        }
        if by == asker {
            let companion = self.known(holder)?;
            let standing = self.standing(holder, asker);
            let mut found = evidence(&self.log, &standing, asker);
            let ghost found_views = views(found@);
            premises.append(&mut found);
            let limit = bearable(standing.affinity, companion.caution);
            let borne = (terms.danger_cap as i16) <= limit && terms.share >= from.share;
            let ghost so_far = views(premises@);
            premises.push(
                Premise::DangerWeighed {
                    danger: terms.danger_cap,
                    bearable: limit,
                    affinity: standing.affinity,
                    caution: companion.caution,
                    borne,
                },
            );
            proof {
                assert(so_far =~= seq![change] + found_views);
                assert(views(premises@) =~= seq![change] + found_views.push(
                    PremiseView::DangerWeighed {
                        danger: terms.danger_cap,
                        bearable: limit,
                        affinity: standing.affinity,
                        caution: companion.caution,
                        borne,
                    },
                ));
            }
            if !borne {
                return Ok(Ruling { by: holder, at, kind: RulingKind::Declined, premises, recorded: None });
            }
        }
        let deed = self.record(at, by, Some(other), DeedKind::AgreementRenegotiated(id));
        let mut agreement = self.take(id);
        let ghost before = agreement;
        agreement.terms = terms;
        agreement.append(at, deed, AgreementChange::Renegotiated { from, to: terms });
        proof {
            assert forall|i: int| 0 <= i < agreement.history@.len() implies event_recorded(
                self.deeds(),
                agreement.id,
                #[trigger] agreement.history@[i],
            ) by {
                if i < before.history@.len() {
                    assert(agreement.history@[i] == before.history@[i]);
                }
            }
        }
        self.put_back(agreement);
        proof {
            assert(self.agreements_spec().dom() =~= old(self).agreements_spec().dom());
        }
        Ok(
            Ruling {
                by,
                at,
                kind: RulingKind::Renegotiated { from, to: terms },
                premises,
                recorded: Some(deed),
            },
        )
    }

    /// Ends an arrangement. Either party may; the reason and the standing it
    /// was ended from are both recorded.
    pub fn end(&mut self, id: AgreementId, by: SubjectId, why: EndReason, at: Tick) -> (result: Result<
        Ruling,
        SocialError,
    >)
        requires
            old(self).ready(),
        ensures
            final(self).wf(),
            match old(self).live_error(id) {
                Some(e) => result == Err::<Ruling, SocialError>(e) && *final(self) == *old(self),
                None => {
                    let a = old(self).agreements_spec()[id.0];
                    let other = if by == a.holder {
                        a.asker
                    } else {
                        a.holder
                    };
                    if by != a.asker && by != a.holder {
                        result == Err::<Ruling, SocialError>(SocialError::NotAParty(by)) && *final(self)
                            == *old(self)
                    } else {
                        let deed = DeedId(old(self).deeds().len() as u64);
                        let b = final(self).agreements_spec()[id.0];
                        &&& result is Ok
                        &&& result->Ok_0.by == by
                        &&& result->Ok_0.at == at
                        &&& result->Ok_0.kind == RulingKind::Ended(why)
                        &&& views(result->Ok_0.premises@) == evidence_spec(
                            old(self).deeds(),
                            old(self).standing_spec(by, other),
                            other,
                        ).push(PremiseView::Ending { agreement: id, why })
                        &&& result->Ok_0.recorded == Some(deed)
                        &&& final(self).deeds() == old(self).deeds().push(
                            Deed {
                                id: deed,
                                at,
                                doer: by,
                                toward: Some(other),
                                kind: DeedKind::AgreementEnded(id),
                            },
                        )
                        &&& changed_one(old(self).agreements_spec(), final(self).agreements_spec(), id.0)
                        &&& same_but_history(a, b)
                        &&& b.terms == a.terms
                        &&& b.state == AgreementState::Ended { at, why }
                        &&& b.history@ == a.history@.push(
                            AgreementEvent { at, deed, what: AgreementChange::Ended(why) },
                        )
                        &&& final(self).companions_spec() == old(self).companions_spec()
                        &&& final(self).next_agreement_spec() == old(self).next_agreement_spec()
                    }
                },
            },
    {
        let agreement = self.live(id)?;
        if !agreement.party(by) {
            return Err(SocialError::NotAParty(by));
        }
        let other = agreement.other(by);
        let standing = self.standing(by, other);
        let mut premises = evidence(&self.log, &standing, other);
        let ghost found = views(premises@);
        premises.push(Premise::Ending { agreement: id, why });
        proof {
            assert(views(premises@) =~= found.push(PremiseView::Ending { agreement: id, why }));
        }
        let deed = self.record(at, by, Some(other), DeedKind::AgreementEnded(id));
        let mut agreement = self.take(id);
        let ghost before = agreement;
        agreement.state = AgreementState::Ended { at, why };
        agreement.append(at, deed, AgreementChange::Ended(why));
        proof {
            assert forall|i: int| 0 <= i < agreement.history@.len() implies event_recorded(
                self.deeds(),
                agreement.id,
                #[trigger] agreement.history@[i],
            ) by {
                if i < before.history@.len() {
                    assert(agreement.history@[i] == before.history@[i]);
                }
            }
        }
        self.put_back(agreement);
        proof {
            assert(self.agreements_spec().dom() =~= old(self).agreements_spec().dom());
        }
        Ok(Ruling { by, at, kind: RulingKind::Ended(why), premises, recorded: Some(deed) })
    }

    /// How a sentence names someone: their name, or "someone".
    pub open spec fn names(&self) -> spec_fn(SubjectId) -> Seq<char> {
        |subject: SubjectId|
            if self.companions_spec().contains_key(subject.0) {
                self.companions_spec()[subject.0].name@
            } else {
                "someone"@
            }
    }

    /// One premise, as a line a player reads. The premise is the fact; this
    /// is only its wording, kept apart so a test can assert on the fact.
    pub fn say(&self, premise: &Premise) -> (line: String)
        requires
            self.wf(),
        ensures
            line@ == line_of(self.names(), premise@),
    {
        let mut line = String::new();
        match premise {
            Premise::Deed { at, doer, kind, trust, affinity, .. } => {
                line.append("tick ");
                push_decimal(&mut line, at.0);
                line.append(": ");
                line.append(self.name_of(*doer));
                line.append(" ");
                line.append(kind.phrase());
                line.append(" (trust ");
                push_plus_signed(&mut line, *trust as i64);
                line.append(", liking ");
                push_plus_signed(&mut line, *affinity as i64);
                line.append(")");
            },
            Premise::Standing { toward, trust, affinity, from_deeds } => {
                line.append("where I stand with ");
                line.append(self.name_of(*toward));
                line.append(": trust ");
                push_signed(&mut line, *trust as i64);
                line.append(", liking ");
                push_signed(&mut line, *affinity as i64);
                line.append(", out of ");
                push_decimal(&mut line, from_deeds.len() as u64);
                line.append(" deeds");
            },
            Premise::Confidence { craft, demanded, held, margin } => {
                line.append(craft.name());
                line.append(" at grade ");
                push_decimal(&mut line, *demanded as u64);
                line.append("; I hold ");
                push_decimal(&mut line, *held as u64);
                line.append(" (");
                push_plus_signed(&mut line, *margin as i64);
                line.append(")");
            },
            Premise::TrustAsked { danger, asked, held, met } => {
                line.append("danger ");
                push_decimal(&mut line, *danger as u64);
                line.append(" asks trust ");
                push_signed(&mut line, *asked as i64);
                line.append("; I hold ");
                push_signed(&mut line, *held as i64);
                line.append(" (");
                line.append(
                    if *met {
                        "enough"
                    } else {
                        "not enough"
                    },
                );
                line.append(")");
            },
            Premise::DangerWeighed { danger, bearable, affinity, caution, borne } => {
                line.append("danger ");
                push_decimal(&mut line, *danger as u64);
                line.append(" against the ");
                push_signed(&mut line, *bearable as i64);
                line.append(" I would bear for them (liking ");
                push_signed(&mut line, *affinity as i64);
                line.append(", caution ");
                push_signed(&mut line, *caution as i64);
                line.append("): ");
                line.append(
                    if *borne {
                        "within me"
                    } else {
                        "past me"
                    },
                );
            },
            Premise::AgreementTerm { share, danger_cap, covers, .. } => {
                line.append("our arrangement: share ");
                push_decimal(&mut line, *share as u64);
                line.append(", up to danger ");
                push_decimal(&mut line, *danger_cap as u64);
                line.append(" (");
                line.append(
                    if *covers {
                        "this fits"
                    } else {
                        "this is not that"
                    },
                );
                line.append(")");
            },
            Premise::TermChange { from, to, .. } => {
                line.append("terms: share ");
                push_decimal(&mut line, from.share as u64);
                line.append(" -> ");
                push_decimal(&mut line, to.share as u64);
                line.append(", danger cap ");
                push_decimal(&mut line, from.danger_cap as u64);
                line.append(" -> ");
                push_decimal(&mut line, to.danger_cap as u64);
            },
            Premise::Ending { why, .. } => {
                line.append("ending: ");
                line.append(why.phrase());
            },
        }
        proof {
            assert(line@ =~= line_of(self.names(), premise@));
        }
        line
    }

    /// Every premise, as lines, in order.
    pub fn explain(&self, premises: &[Premise]) -> (lines: Vec<String>)
        requires
            self.wf(),
        ensures
            lines@.len() == premises@.len(),
            forall|i: int|
                0 <= i < lines@.len() ==> (#[trigger] lines@[i])@ == line_of(self.names(), premises@[i]@),
    {
        let mut lines: Vec<String> = Vec::new();
        let mut i: usize = 0;
        while i < premises.len()
            invariant
                self.wf(),
                i <= premises@.len(),
                lines@.len() == i,
                forall|j: int|
                    0 <= j < i ==> (#[trigger] lines@[j])@ == line_of(self.names(), premises@[j]@),
            decreases premises@.len() - i,
        {
            lines.push(self.say(&premises[i]));
            i = i + 1;
        }
        lines
    }
}

/// Agreements are numbered from zero without gaps: the ids on record are
/// exactly those below the next one to be handed out, so the id `form`
/// gives a new agreement is the number of agreements made before it.
pub proof fn law_agreements_are_numbered(society: Society)
    requires
        society.wf(),
    ensures
        society.agreements_spec().dom() == Set::new(|k: u64| k < society.next_agreement_spec()),
{
    assert(society.agreements_spec().dom() =~= Set::new(|k: u64| k < society.next_agreement_spec()));
}

/// A well-formed society's log is numbered: each deed's id is its place.
pub proof fn lemma_society_log_numbered(society: Society)
    requires
        society.wf(),
    ensures
        crate::social::deed::numbered(society.deeds()),
        society.deeds().len() == society.deeds().len(),
{
}

} // verus!
