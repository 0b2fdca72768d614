//! The refusal scene, as data: three companions, one offer, three answers.
//!
//! The scene lives in the library rather than in a test so the test and the
//! printed run are provably the same run. The differences between the
//! three are only in history, nerve, and craft:
//!
//! - the first was stood by, twice, and is the better scout: accepts;
//! - the second was shared with once and then left, is the best scout of
//!   the three, and refuses anyway: capability is not willingness;
//! - the third was shared with twice and stood by once, likes the asker
//!   most, and is the most careful: the ask is fine and the danger is not,
//!   so she counteroffers.

use vstd::prelude::*;

use crate::identity::{SubjectId, Tick};
use crate::social::agreement::{exercise_count, AgreementChange, AgreementEvent, AgreementId, AgreementState, EndReason};
use crate::social::companion::{Companion, Craft, Skill};
use crate::social::deed::{Deed, DeedId, DeedKind};
use crate::social::offer::{Offer, Terms, Work};
use crate::social::relation::{fits, fold_room, lemma_room_extend, lemma_room_push, lemma_short_log_fits, moves, standing_of};
use crate::social::response::{views, PremiseView, Response, Ruling, RulingKind};
use crate::social::society::{lemma_society_log_numbered, verdict_kind, SocialError, Society};
use crate::social::willing::{law_unrelated_deed_keeps_the_answer, routine_spec};

verus! {

pub fn aud() -> (s: SubjectId)
    ensures
        s == SubjectId(1),
{
    SubjectId(1)
}

pub fn bram() -> (s: SubjectId)
    ensures
        s == SubjectId(2),
{
    SubjectId(2)
}

pub fn odris() -> (s: SubjectId)
    ensures
        s == SubjectId(3),
{
    SubjectId(3)
}

pub fn sela() -> (s: SubjectId)
    ensures
        s == SubjectId(4),
{
    SubjectId(4)
}

/// The three asked, in the order they are always asked.
pub open spec fn three_spec() -> Seq<SubjectId> {
    seq![SubjectId(2), SubjectId(3), SubjectId(4)]
}

pub fn the_three() -> (three: [SubjectId; 3])
    ensures
        three@ == three_spec(),
{
    let three = [SubjectId(2), SubjectId(3), SubjectId(4)];
    proof {
        assert(three@ =~= three_spec());
    }
    three
}

/// Scouting ahead of a sortie, at a grade three of them can meet and a
/// danger none of them can ignore.
pub open spec fn work_spec() -> Work {
    Work { craft: Craft::Scouting, grade: 3, danger: 4 }
}

pub open spec fn terms_spec() -> Terms {
    Terms { share: 2, danger_cap: 5 }
}

pub fn the_work() -> (work: Work)
    ensures
        work == work_spec(),
{
    Work { craft: Craft::Scouting, grade: 3, danger: 4 }
}

pub fn the_terms() -> (terms: Terms)
    ensures
        terms == terms_spec(),
{
    Terms { share: 2, danger_cap: 5 }
}

pub fn asked_at() -> (at: Tick)
    ensures
        at == Tick(8),
{
    Tick(8)
}

/// The history that makes the three different, and nothing else: every
/// deed is the asker's, done to one of them.
pub open spec fn history_spec() -> Seq<Deed> {
    seq![
        Deed { id: DeedId(0), at: Tick(1), doer: SubjectId(1), toward: Some(SubjectId(2)), kind: DeedKind::StoodBy },
        Deed { id: DeedId(1), at: Tick(2), doer: SubjectId(1), toward: Some(SubjectId(2)), kind: DeedKind::StoodBy },
        Deed { id: DeedId(2), at: Tick(3), doer: SubjectId(1), toward: Some(SubjectId(3)), kind: DeedKind::Shared },
        Deed { id: DeedId(3), at: Tick(4), doer: SubjectId(1), toward: Some(SubjectId(3)), kind: DeedKind::Abandoned },
        Deed { id: DeedId(4), at: Tick(5), doer: SubjectId(1), toward: Some(SubjectId(4)), kind: DeedKind::Shared },
        Deed { id: DeedId(5), at: Tick(6), doer: SubjectId(1), toward: Some(SubjectId(4)), kind: DeedKind::Shared },
        Deed { id: DeedId(6), at: Tick(7), doer: SubjectId(1), toward: Some(SubjectId(4)), kind: DeedKind::StoodBy },
    ]
}

/// Whether a society holds the scene's companion under `k`, named `name`,
/// with these skills and this caution.
pub open spec fn holds(society: Society, k: u64, name: Seq<char>, skills: Seq<Skill>, caution: i16) -> bool {
    &&& society.companions_spec().contains_key(k)
    &&& society.companions_spec()[k].name@ == name
    &&& society.companions_spec()[k].skills@ == skills
    &&& society.companions_spec()[k].caution == caution
}

/// The four people and their history.
pub fn society() -> (society: Society)
    ensures
        society.ready(),
        society.companions_spec().dom() == set![1u64, 2u64, 3u64, 4u64],
        holds(society, 1, "Aud"@, seq![Skill { craft: Craft::Scouting, grade: 2 }], 0),
        holds(society, 2, "Bram"@, seq![Skill { craft: Craft::Scouting, grade: 4 }], 0),
        holds(
            society,
            3,
            "Odris"@,
            seq![Skill { craft: Craft::Scouting, grade: 5 }, Skill { craft: Craft::Watching, grade: 3 }],
            1,
        ),
        holds(
            society,
            4,
            "Sela"@,
            seq![Skill { craft: Craft::Scouting, grade: 3 }, Skill { craft: Craft::Healing, grade: 4 }],
            3,
        ),
        society.deeds() == history_spec(),
        society.agreements_spec() == Map::<u64, crate::social::agreement::Agreement>::empty(),
        society.next_agreement_spec() == 0,
{
    let mut society = Society::new();
    let mut skills = Vec::new();
    skills.push(Skill::new(Craft::Scouting, 2));
    society.welcome(Companion::new(aud(), "Aud", skills, 0));
    let mut skills = Vec::new();
    skills.push(Skill::new(Craft::Scouting, 4));
    society.welcome(Companion::new(bram(), "Bram", skills, 0));
    let mut skills = Vec::new();
    skills.push(Skill::new(Craft::Scouting, 5));
    skills.push(Skill::new(Craft::Watching, 3));
    proof {
        assert(skills@ =~= seq![Skill { craft: Craft::Scouting, grade: 5 }, Skill { craft: Craft::Watching, grade: 3 }]);
    }
    society.welcome(Companion::new(odris(), "Odris", skills, 1));
    let mut skills = Vec::new();
    skills.push(Skill::new(Craft::Scouting, 3));
    skills.push(Skill::new(Craft::Healing, 4));
    proof {
        assert(skills@ =~= seq![Skill { craft: Craft::Scouting, grade: 3 }, Skill { craft: Craft::Healing, grade: 4 }]);
    }
    society.welcome(Companion::new(sela(), "Sela", skills, 3));
    society.record(Tick(1), aud(), Some(bram()), DeedKind::StoodBy);
    society.record(Tick(2), aud(), Some(bram()), DeedKind::StoodBy);
    society.record(Tick(3), aud(), Some(odris()), DeedKind::Shared);
    society.record(Tick(4), aud(), Some(odris()), DeedKind::Abandoned);
    society.record(Tick(5), aud(), Some(sela()), DeedKind::Shared);
    society.record(Tick(6), aud(), Some(sela()), DeedKind::Shared);
    society.record(Tick(7), aud(), Some(sela()), DeedKind::StoodBy);
    proof {
        assert(society.deeds() =~= history_spec());
        assert(society.companions_spec().dom() =~= set![1u64, 2u64, 3u64, 4u64]);
        assert(society.agreements_spec() =~= Map::<u64, crate::social::agreement::Agreement>::empty());
        lemma_short_log_fits(society.deeds());
    }
    society
}

/// The scene's offer, put to `subject`.
pub open spec fn offer_spec(subject: SubjectId) -> Offer {
    Offer { asked_by: SubjectId(1), asked_of: subject, work: work_spec(), terms: terms_spec() }
}

pub fn offer_to(subject: SubjectId) -> (offer: Offer)
    ensures
        offer == offer_spec(subject),
{
    Offer::new(aud(), subject, the_work(), the_terms())
}

/// The deed the `i`th answer records, on a log `base` deeds long.
pub open spec fn answer_deed(society: Society, i: int, base: nat) -> Deed {
    let offer = offer_spec(three_spec()[i]);
    Deed {
        id: DeedId((base + i) as u64),
        at: Tick(8),
        doer: offer.asked_of,
        toward: Some(SubjectId(1)),
        kind: verdict_kind(society.weighed(offer).0),
    }
}

/// Whether the `i`th answer is the one the asked give the scene's offer,
/// weighed in the society as it stood before anyone was asked.
pub open spec fn answered(society: Society, r: Response, i: int, base: nat) -> bool {
    let offer = offer_spec(three_spec()[i]);
    &&& r.by == offer.asked_of
    &&& r.at == Tick(8)
    &&& r.verdict == society.weighed(offer).0
    &&& views(r.premises@) == society.weighed(offer).1
    &&& r.recorded == DeedId((base + i) as u64)
}

/// The same offer put to each of the three, in order. Each answer is the
/// one that companion gives the offer in the society as it stood before
/// anyone was asked: an earlier answer changes nothing about a later one.
pub fn answers(society: &mut Society) -> (result: Result<Vec<Response>, SocialError>)
    requires
        old(society).ready(),
        fold_room(old(society).deeds(), 3),
        forall|i: int| 0 <= i < 3 ==> old(society).can_weigh(#[trigger] offer_spec(three_spec()[i])),
    ensures
        final(society).wf(),
        final(society).companions_spec() == old(society).companions_spec(),
        final(society).agreements_spec() == old(society).agreements_spec(),
        final(society).next_agreement_spec() == old(society).next_agreement_spec(),
        ({
            let s = *old(society);
            let base = s.deeds().len();
            if s.offer_error(offer_spec(SubjectId(2))) is Some {
                result == Err::<Vec<Response>, SocialError>(s.offer_error(offer_spec(SubjectId(2)))->Some_0)
                    && final(society).deeds() == s.deeds()
            } else if s.offer_error(offer_spec(SubjectId(3))) is Some {
                result == Err::<Vec<Response>, SocialError>(s.offer_error(offer_spec(SubjectId(3)))->Some_0)
                    && final(society).deeds() == s.deeds().push(answer_deed(s, 0, base))
            } else if s.offer_error(offer_spec(SubjectId(4))) is Some {
                result == Err::<Vec<Response>, SocialError>(s.offer_error(offer_spec(SubjectId(4)))->Some_0)
                    && final(society).deeds() == s.deeds().push(answer_deed(s, 0, base)).push(
                    answer_deed(s, 1, base),
                )
            } else {
                &&& result is Ok
                &&& result->Ok_0@.len() == 3
                &&& forall|i: int| 0 <= i < 3 ==> answered(s, #[trigger] result->Ok_0@[i], i, base)
                &&& final(society).deeds() == s.deeds().push(answer_deed(s, 0, base)).push(
                    answer_deed(s, 1, base),
                ).push(answer_deed(s, 2, base))
            }
        }),
{
    let ghost s = *society;
    let ghost base = s.deeds().len();
    proof {
        lemma_society_log_numbered(s);
        assert(offer_spec(three_spec()[0]) == offer_spec(SubjectId(2)));
        assert(offer_spec(three_spec()[1]) == offer_spec(SubjectId(3)));
        assert(offer_spec(three_spec()[2]) == offer_spec(SubjectId(4)));
    }
    let first = match society.consider(&offer_to(bram()), asked_at()) {
        Ok(r) => r,
        Err(e) => return Err(e),
    };
    let ghost s1 = *society;
    proof {
        let d0 = answer_deed(s, 0, base);
        let c3 = s.companions_spec()[3];
        let c4 = s.companions_spec()[4];
        law_unrelated_deed_keeps_the_answer(s.deeds(), d0, c3.skills@, c3.caution, SubjectId(3), SubjectId(1), work_spec(), terms_spec());
        law_unrelated_deed_keeps_the_answer(s.deeds(), d0, c4.skills@, c4.caution, SubjectId(4), SubjectId(1), work_spec(), terms_spec());
        lemma_room_push(s.deeds(), 2, answer_deed(s, 0, base));
        lemma_society_log_numbered(s1);
    }
    let second = match society.consider(&offer_to(odris()), asked_at()) {
        Ok(r) => r,
        Err(e) => return Err(e),
    };
    let ghost s2 = *society;
    proof {
        let d1 = answer_deed(s, 1, base);
        let c4 = s.companions_spec()[4];
        law_unrelated_deed_keeps_the_answer(s1.deeds(), d1, c4.skills@, c4.caution, SubjectId(4), SubjectId(1), work_spec(), terms_spec());
        lemma_room_push(s1.deeds(), 1, d1);
    }
    let third = match society.consider(&offer_to(sela()), asked_at()) {
        Ok(r) => r,
        Err(e) => return Err(e),
    };
    let answers = vec![first, second, third];
    proof {
        assert(answers@[0] == first);
        assert(answers@[1] == second);
        assert(answers@[2] == third);
    }
    Ok(answers)
}

/// The scene agreement's history, the formed one read back: formed at 9,
/// exercised at 10 where the work was done, renegotiated at 11, ended at 13.
pub open spec fn lifecycle_history(h: Seq<AgreementEvent>, performed: bool) -> bool {
    let renegotiated = AgreementChange::Renegotiated { from: terms_spec(), to: Terms { share: 3, danger_cap: 3 } };
    if performed {
        &&& h.len() == 4
        &&& h[0].at == Tick(9) && h[0].what == AgreementChange::Formed
        &&& h[1].at == Tick(10) && h[1].what == AgreementChange::Exercised
        &&& h[2].at == Tick(11) && h[2].what == renegotiated
        &&& h[3].at == Tick(13) && h[3].what == AgreementChange::Ended(EndReason::WorkDone)
    } else {
        &&& h.len() == 3
        &&& h[0].at == Tick(9) && h[0].what == AgreementChange::Formed
        &&& h[1].at == Tick(11) && h[1].what == renegotiated
        &&& h[2].at == Tick(13) && h[2].what == AgreementChange::Ended(EndReason::WorkDone)
    }
}

/// The standing agreement, whole: formed with the one who accepts,
/// exercised once, renegotiated by its holder, asked again past the new
/// term, and ended. A declined form returns on its own: no lifecycle is
/// built on an arrangement nobody made. Whether the first exercise is done
/// is the holder's own routine judgment, made over the log as the forming
/// left it.
pub fn lifecycle(society: &mut Society) -> (result: Result<Vec<Ruling>, SocialError>)
    requires
        old(society).ready(),
        fold_room(old(society).deeds(), 5),
        old(society).can_weigh(offer_spec(SubjectId(2))),
        old(society).next_agreement_spec() < u64::MAX,
    ensures
        final(society).wf(),
        ({
            let s = *old(society);
            let offer = offer_spec(SubjectId(2));
            match s.offer_error(offer) {
                Some(e) => result == Err::<Vec<Ruling>, SocialError>(e) && *final(society) == s,
                None => if s.weighed(offer).0 != crate::social::response::Verdict::Accept {
                    &&& result is Ok
                    &&& result->Ok_0@.len() == 1
                    &&& result->Ok_0@[0].kind == RulingKind::Declined
                    &&& *final(society) == s
                } else {
                    let id = AgreementId(s.next_agreement_spec());
                    let a = final(society).agreements_spec()[id.0];
                    let l1 = s.deeds().push(
                        Deed {
                            id: DeedId(s.deeds().len() as u64),
                            at: Tick(9),
                            doer: SubjectId(2),
                            toward: Some(SubjectId(1)),
                            kind: DeedKind::AgreementFormed(id),
                        },
                    );
                    let (willing, weighing) = routine_spec(
                        s.companions_spec()[2].skills@,
                        SubjectId(1),
                        standing_of(l1, SubjectId(2), SubjectId(1)),
                        l1,
                        work_spec(),
                    );
                    let r = result->Ok_0@;
                    &&& result is Ok
                    &&& r.len() == 5
                    &&& r[0].kind == RulingKind::Formed(id)
                    &&& r[1].kind == (if willing {
                        RulingKind::Performed
                    } else {
                        RulingKind::Declined
                    })
                    &&& views(r[1].premises@) == seq![
                        PremiseView::AgreementTerm { agreement: id, share: 2, danger_cap: 5, covers: true },
                    ] + weighing
                    &&& r[2].kind == RulingKind::Renegotiated {
                        from: terms_spec(),
                        to: Terms { share: 3, danger_cap: 3 },
                    }
                    &&& r[3].kind == RulingKind::OutsideTerms
                    &&& views(r[3].premises@) == seq![
                        PremiseView::AgreementTerm { agreement: id, share: 3, danger_cap: 3, covers: false },
                    ]
                    &&& r[3].recorded is None
                    &&& r[4].kind == RulingKind::Ended(EndReason::WorkDone)
                    &&& views(r[4].premises@).last() == (PremiseView::Ending { agreement: id, why: EndReason::WorkDone })
                    &&& final(society).agreements_spec().contains_key(id.0)
                    &&& a.holder == SubjectId(2)
                    &&& a.asker == SubjectId(1)
                    &&& a.terms == Terms { share: 3, danger_cap: 3 }
                    &&& a.state == AgreementState::Ended { at: Tick(13), why: EndReason::WorkDone }
                    &&& lifecycle_history(a.history@, willing)
                    &&& exercise_count(a.history@) == (if willing {
                        1nat
                    } else {
                        0nat
                    })
                },
            }
        }),
{
    let ghost s = *society;
    let formed = match society.form(&offer_to(bram()), Tick(9)) {
        Ok(r) => r,
        Err(e) => return Err(e),
    };
    let id = match formed.kind {
        RulingKind::Formed(id) => id,
        _ => {
            let rulings = vec![formed];
            proof {
                assert(rulings@[0] == formed);
            }
            return Ok(rulings);
        },
    };
    let ghost s1 = *society;
    proof {
        lemma_room_extend(s.deeds(), s1.deeds(), 1, 4);
    }
    let performed = match society.exercise(id, &the_work(), Tick(10)) {
        Ok(r) => r,
        Err(e) => return Err(e),
    };
    let ghost s2 = *society;
    proof {
        lemma_room_extend(s1.deeds(), s2.deeds(), 1, 3);
    }
    let changed = match society.propose_change(id, bram(), Terms::new(3, 3), Tick(11)) {
        Ok(r) => r,
        Err(e) => return Err(e),
    };
    let ghost s3 = *society;
    proof {
        lemma_room_extend(s2.deeds(), s3.deeds(), 1, 2);
    }
    let past_it = match society.exercise(id, &the_work(), Tick(12)) {
        Ok(r) => r,
        Err(e) => return Err(e),
    };
    let ghost s4 = *society;
    proof {
        lemma_room_extend(s3.deeds(), s4.deeds(), 1, 1);
    }
    let ended = match society.end(id, aud(), EndReason::WorkDone, Tick(13)) {
        Ok(r) => r,
        Err(e) => return Err(e),
    };
    let rulings = vec![formed, performed, changed, past_it, ended];
    proof {
        assert(rulings@[0] == formed);
        assert(rulings@[1] == performed);
        assert(rulings@[2] == changed);
        assert(rulings@[3] == past_it);
        assert(rulings@[4] == ended);
        reveal_with_fuel(exercise_count, 5);
    }
    Ok(rulings)
}

} // verus!
