//! The settling scene, as data: the negotiated home.
//!
//! The same four people as the refusal scene, the same history, one step
//! on: housing and daily work are offered, and the asks differ by person
//! because the work does.
//!
//! - The first is offered the gatehouse and the bounds to walk: accepts.
//! - The second is offered the night watch, the one craft he alone holds,
//!   at a grade he exactly meets: refuses at the trust gate, citing the
//!   abandonment; capability is provably not the reason.
//! - The third is offered the sickroom at a danger past what she would
//!   carry: counteroffers; the asker returns with her terms and the ward
//!   kept inside them, and that arrangement forms.

use vstd::prelude::*;

use crate::identity::{SubjectId, Tick};
use crate::social::agreement::{AgreementId, AgreementState};
use crate::social::companion::Craft;
use crate::social::deed::{Deed, DeedId};
use crate::social::offer::{Offer, Terms, Work};
use crate::social::relation::{fold_room, lemma_room_extend};
use crate::social::response::{views, Response, Verdict};
use crate::social::scene::{aud, bram, odris, sela};
use crate::social::settlement::{tenant_in, Dwelling, DwellingId, SettleError, Settlement, Tenancy};
use crate::social::society::{lemma_society_log_numbered, verdict_kind, SocialError, Society};
use crate::social::willing::law_unrelated_deed_keeps_the_answer;

verus! {

pub fn the_gatehouse() -> (d: DwellingId)
    ensures
        d == DwellingId(1),
{
    DwellingId(1)
}

pub fn the_still_room() -> (d: DwellingId)
    ensures
        d == DwellingId(2),
{
    DwellingId(2)
}

/// Walking the bounds each day: within the scout's craft, mild danger.
pub open spec fn bram_ask_spec() -> Work {
    Work { craft: Craft::Scouting, grade: 2, danger: 2 }
}

/// The night watch, at exactly the grade its one holder holds.
pub open spec fn odris_ask_spec() -> Work {
    Work { craft: Craft::Watching, grade: 3, danger: 2 }
}

/// The sickroom at its worst: a danger past what its healer would carry.
pub open spec fn sela_ask_spec() -> Work {
    Work { craft: Craft::Healing, grade: 3, danger: 4 }
}

/// What is put up alongside each roof.
pub open spec fn keep_spec() -> Terms {
    Terms { share: 2, danger_cap: 4 }
}

pub fn bram_ask() -> (w: Work)
    ensures
        w == bram_ask_spec(),
{
    Work { craft: Craft::Scouting, grade: 2, danger: 2 }
}

pub fn odris_ask() -> (w: Work)
    ensures
        w == odris_ask_spec(),
{
    Work { craft: Craft::Watching, grade: 3, danger: 2 }
}

pub fn sela_ask() -> (w: Work)
    ensures
        w == sela_ask_spec(),
{
    Work { craft: Craft::Healing, grade: 3, danger: 4 }
}

pub fn the_keep() -> (t: Terms)
    ensures
        t == keep_spec(),
{
    Terms { share: 2, danger_cap: 4 }
}

/// The settlement before anyone lives in it.
pub fn settlement() -> (settlement: Settlement)
    ensures
        settlement.wf(),
        settlement.dwellings_spec().dom() == set![1u64, 2u64],
        settlement.dwellings_spec()[1].name@ == "the gatehouse"@,
        settlement.dwellings_spec()[2].name@ == "the still-room"@,
        settlement.tenancies_spec() == Seq::<Tenancy>::empty(),
{
    let mut settlement = Settlement::new();
    settlement.found(Dwelling { id: the_gatehouse(), name: "the gatehouse".to_owned() });
    settlement.found(Dwelling { id: the_still_room(), name: "the still-room".to_owned() });
    proof {
        assert(settlement.dwellings_spec().dom() =~= set![1u64, 2u64]);
    }
    settlement
}

/// The refusal scene's society: same people, same deeds. The settling
/// continues the story rather than restarting it.
pub fn society() -> (society: Society)
    ensures
        society.ready(),
        society.deeds() == crate::social::scene::history_spec(),
        society.companions_spec().dom() == set![1u64, 2u64, 3u64, 4u64],
        society.agreements_spec() == Map::<u64, crate::social::agreement::Agreement>::empty(),
        society.next_agreement_spec() == 0,
        forall|k: u64| #[trigger] society.companions_spec().contains_key(k) ==> -1000 <= society.companions_spec()[k].caution <= 1000,
{
    let society = crate::social::scene::society();
    proof {
        assert forall|k: u64| #[trigger] society.companions_spec().contains_key(k) implies -1000
            <= society.companions_spec()[k].caution <= 1000 by {
            assert(society.companions_spec().dom().contains(k));
        }
    }
    society
}

/// The ask each of them gets.
pub open spec fn ask_spec(subject: SubjectId) -> Offer {
    let work = if subject == SubjectId(2) {
        bram_ask_spec()
    } else if subject == SubjectId(3) {
        odris_ask_spec()
    } else {
        sela_ask_spec()
    };
    Offer { asked_by: SubjectId(1), asked_of: subject, work, terms: keep_spec() }
}

pub fn ask_of(subject: SubjectId) -> (offer: Offer)
    ensures
        offer == ask_spec(subject),
{
    let work = if subject == bram() {
        bram_ask()
    } else if subject == odris() {
        odris_ask()
    } else {
        sela_ask()
    };
    Offer::new(aud(), subject, work, the_keep())
}

/// The deed an answer to `offer` at `at` records, under `id`.
pub open spec fn answer_deed_at(society: Society, offer: Offer, at: Tick, id: nat) -> Deed {
    Deed {
        id: DeedId(id as u64),
        at,
        doer: offer.asked_of,
        toward: Some(offer.asked_by),
        kind: verdict_kind(society.weighed(offer).0),
    }
}

/// Whether `r` is the answer to `offer` at `at`, as weighed in `society`,
/// recorded under `id`.
pub open spec fn answered_at(society: Society, r: Response, offer: Offer, at: Tick, id: nat) -> bool {
    &&& r.by == offer.asked_of
    &&& r.at == at
    &&& r.verdict == society.weighed(offer).0
    &&& views(r.premises@) == society.weighed(offer).1
    &&& r.recorded == DeedId(id as u64)
}

/// Each ask put and answered, in order, at ticks 8, 9 and 10. Each answer
/// is the one given in the society as it stood before anyone was asked.
pub fn answers(society: &mut Society) -> (result: Result<Vec<Response>, SocialError>)
    requires
        old(society).ready(),
        fold_room(old(society).deeds(), 3),
        old(society).can_weigh(ask_spec(SubjectId(2))),
        old(society).can_weigh(ask_spec(SubjectId(3))),
        old(society).can_weigh(ask_spec(SubjectId(4))),
    ensures
        final(society).wf(),
        final(society).companions_spec() == old(society).companions_spec(),
        final(society).agreements_spec() == old(society).agreements_spec(),
        final(society).next_agreement_spec() == old(society).next_agreement_spec(),
        ({
            let s = *old(society);
            let n = s.deeds().len();
            let (o0, o1, o2) = (ask_spec(SubjectId(2)), ask_spec(SubjectId(3)), ask_spec(SubjectId(4)));
            let d0 = answer_deed_at(s, o0, Tick(8), n);
            let d1 = answer_deed_at(s, o1, Tick(9), n + 1);
            let d2 = answer_deed_at(s, o2, Tick(10), n + 2);
            if s.offer_error(o0) is Some {
                result == Err::<Vec<Response>, SocialError>(s.offer_error(o0)->Some_0) && final(society).deeds()
                    == s.deeds()
            } else if s.offer_error(o1) is Some {
                result == Err::<Vec<Response>, SocialError>(s.offer_error(o1)->Some_0) && final(society).deeds()
                    == s.deeds().push(d0)
            } else if s.offer_error(o2) is Some {
                result == Err::<Vec<Response>, SocialError>(s.offer_error(o2)->Some_0) && final(society).deeds()
                    == s.deeds().push(d0).push(d1)
            } else {
                &&& result is Ok
                &&& result->Ok_0@.len() == 3
                &&& answered_at(s, result->Ok_0@[0], o0, Tick(8), n)
                &&& answered_at(s, result->Ok_0@[1], o1, Tick(9), n + 1)
                &&& answered_at(s, result->Ok_0@[2], o2, Tick(10), n + 2)
                &&& final(society).deeds() == s.deeds().push(d0).push(d1).push(d2)
            }
        }),
{
    let ghost s = *society;
    let ghost n = s.deeds().len();
    proof {
        lemma_society_log_numbered(s);
    }
    let first = match society.consider(&ask_of(bram()), Tick(8)) {
        Ok(r) => r,
        Err(e) => return Err(e),
    };
    let ghost s1 = *society;
    proof {
        let d0 = answer_deed_at(s, ask_spec(SubjectId(2)), Tick(8), n);
        let c3 = s.companions_spec()[3];
        let c4 = s.companions_spec()[4];
        law_unrelated_deed_keeps_the_answer(s.deeds(), d0, c3.skills@, c3.caution, SubjectId(3), SubjectId(1), odris_ask_spec(), keep_spec());
        law_unrelated_deed_keeps_the_answer(s.deeds(), d0, c4.skills@, c4.caution, SubjectId(4), SubjectId(1), sela_ask_spec(), keep_spec());
        lemma_room_extend(s.deeds(), s1.deeds(), 1, 2);
        lemma_society_log_numbered(s1);
    }
    let second = match society.consider(&ask_of(odris()), Tick(9)) {
        Ok(r) => r,
        Err(e) => return Err(e),
    };
    let ghost s2 = *society;
    proof {
        let d1 = answer_deed_at(s, ask_spec(SubjectId(3)), Tick(9), n + 1);
        let c4 = s.companions_spec()[4];
        law_unrelated_deed_keeps_the_answer(s1.deeds(), d1, c4.skills@, c4.caution, SubjectId(4), SubjectId(1), sela_ask_spec(), keep_spec());
        lemma_room_extend(s1.deeds(), s2.deeds(), 1, 1);
    }
    let third = match society.consider(&ask_of(sela()), Tick(10)) {
        Ok(r) => r,
        Err(e) => return Err(e),
    };
    let answers = vec![first, second, third];
    proof {
        assert(answers@[0] == first);
        assert(answers@[1] == second);
        assert(answers@[2] == third);
    }
    Ok(answers)
}

/// The ask come back around: her countered terms, and the ward's danger
/// held inside the cap she named.
pub open spec fn sela_settled_spec() -> Offer {
    Offer {
        asked_by: SubjectId(1),
        asked_of: SubjectId(4),
        work: Work { craft: Craft::Healing, grade: 3, danger: 3 },
        terms: Terms { share: 3, danger_cap: 3 },
    }
}

pub fn sela_settled_ask() -> (offer: Offer)
    ensures
        offer == sela_settled_spec(),
{
    Offer::new(aud(), sela(), Work { danger: 3, ..sela_ask() }, Terms { share: 3, danger_cap: 3 })
}

/// Whether a tenancy is one of the two homes offered here, standing on an
/// agreement between the asker and its tenant.
pub open spec fn offered_home(society: Society, t: Tenancy) -> bool {
    &&& ((t.dwelling == DwellingId(1) && t.tenant == SubjectId(2) && t.since == Tick(11)) || (t.dwelling
        == DwellingId(2) && t.tenant == SubjectId(4) && t.since == Tick(12)))
    &&& society.agreements_spec().contains_key(t.under.0)
    &&& society.agreements_spec()[t.under.0].holder == t.tenant
    &&& society.agreements_spec()[t.under.0].asker == SubjectId(1)
    &&& society.agreements_spec()[t.under.0].state == AgreementState::Standing
}

/// The tenancies the settling makes, given the society it starts from:
/// Bram in the gatehouse if he takes his ask, then Sela in the still-room
/// if she takes her own terms, each under the next agreement formed.
pub open spec fn homes_made(s: Society) -> Seq<Tenancy> {
    let bram_takes = s.weighed(ask_spec(SubjectId(2))).0 == Verdict::Accept;
    let sela_takes = s.weighed(sela_settled_spec()).0 == Verdict::Accept;
    let n = s.next_agreement_spec();
    let first = if bram_takes {
        seq![Tenancy { dwelling: DwellingId(1), tenant: SubjectId(2), under: AgreementId(n), since: Tick(11) }]
    } else {
        Seq::<Tenancy>::empty()
    };
    let sela_id = if bram_takes {
        (n + 1) as u64
    } else {
        n
    };
    let second = if sela_takes {
        seq![Tenancy { dwelling: DwellingId(2), tenant: SubjectId(4), under: AgreementId(sela_id), since: Tick(12) }]
    } else {
        Seq::<Tenancy>::empty()
    };
    first + second
}

/// The homes actually made: the gatehouse at 11, the still-room at 12 on
/// her own terms. No tenancy exists for anyone who did not agree.
pub fn housings(society: &mut Society, settlement: &mut Settlement) -> (result: Result<(), SettleError>)
    requires
        old(settlement).wf(),
        old(society).ready(),
        fold_room(old(society).deeds(), 2),
        old(society).can_weigh(ask_spec(SubjectId(2))),
        old(society).can_weigh(sela_settled_spec()),
        old(society).next_agreement_spec() + 2 < u64::MAX,
    ensures
        final(settlement).wf(),
        final(society).wf(),
        final(settlement).dwellings_spec() == old(settlement).dwellings_spec(),
        old(settlement).tenancies_spec().len() <= final(settlement).tenancies_spec().len()
            <= old(settlement).tenancies_spec().len() + 2,
        forall|i: int|
            0 <= i < old(settlement).tenancies_spec().len() ==> #[trigger] final(settlement).tenancies_spec()[i]
                == old(settlement).tenancies_spec()[i],
        forall|i: int|
            old(settlement).tenancies_spec().len() <= i < final(settlement).tenancies_spec().len() ==> offered_home(
                *final(society),
                #[trigger] final(settlement).tenancies_spec()[i],
            ),
        final(society).companions_spec() == old(society).companions_spec(),
        final(society).deeds().len() <= old(society).deeds().len() + 2,
        final(society).next_agreement_spec() <= old(society).next_agreement_spec() + 2,
        old(settlement).tenancies_spec().len() == 0 && old(settlement).dwellings_spec().contains_key(1)
            && old(settlement).dwellings_spec().contains_key(2) && old(society).offer_error(ask_spec(SubjectId(2)))
            is None && old(society).offer_error(sela_settled_spec()) is None ==> result is Ok,
        old(settlement).tenancies_spec().len() == 0 && old(settlement).dwellings_spec().contains_key(1)
            && old(settlement).dwellings_spec().contains_key(2) && old(society).offer_error(ask_spec(SubjectId(2)))
            is None && old(society).offer_error(sela_settled_spec()) is None ==> final(settlement).tenancies_spec()
            == homes_made(*old(society)),
{
    let ghost s = *society;
    let ghost t0 = settlement.tenancies_spec();
    proof {
        lemma_society_log_numbered(s);
    }
    let first = settlement.offer_home(society, &ask_of(bram()), the_gatehouse(), Tick(11));
    let ghost s1 = *society;
    let ghost t1 = settlement.tenancies_spec();
    proof {
        if s1.deeds().len() > s.deeds().len() {
            let d = s1.deeds().last();
            let c = s.companions_spec()[4];
            law_unrelated_deed_keeps_the_answer(s.deeds(), d, c.skills@, c.caution, SubjectId(4), SubjectId(1), sela_settled_spec().work, sela_settled_spec().terms);
        }
        lemma_room_extend(s.deeds(), s1.deeds(), 1, 1);
        if t0.len() == 0 {
            if t1.len() == 1 {
                assert(t1[0].dwelling == DwellingId(1));
                assert(t1.last().dwelling == DwellingId(1));
                assert(t1.drop_last() =~= Seq::<Tenancy>::empty());
                assert(tenant_in(t1.drop_last(), s1.agreements_spec(), DwellingId(2)) is None);
            } else {
                assert(t1 =~= Seq::<Tenancy>::empty());
            }
            assert(tenant_in(t1, s1.agreements_spec(), DwellingId(2)) is None);
        }
    }
    if let Err(e) = first {
        return Err(e);
    }
    let second = settlement.offer_home(society, &sela_settled_ask(), the_still_room(), Tick(12));
    proof {
        let s2 = *society;
        let t2 = settlement.tenancies_spec();
        assert forall|i: int| t0.len() <= i < t2.len() implies offered_home(s2, #[trigger] t2[i]) by {
            if i < t1.len() {
                assert(t2[i] == t1[i]);
                assert(s2.agreements_spec().contains_key(t1[i].under.0));
            }
        }
        assert forall|i: int| 0 <= i < t0.len() implies #[trigger] t2[i] == t0[i] by {
            assert(t1[i] == t0[i]);
        }
    }
    match second {
        Err(e) => Err(e),
        Ok(_) => Ok(()),
    }
}

} // verus!
