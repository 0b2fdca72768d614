//! The sortie scene: the settled people go out, and one comes back changed
//! toward another.
//!
//! The society is the settling scene's settled state. The scout's part is
//! negotiated fresh for this expedition as a bounded agreement; the
//! healer's part rides her standing settlement agreement, which also
//! carries the tag-in pact. Where home and the site stand on the terrain is
//! the terrain's business: the muster takes them as positions.

use vstd::prelude::*;

use crate::identity::control::Control;
use crate::identity::facets::Facets;
use crate::identity::{BodyRevisionId, SubjectId, Tick};
use crate::social::agreement::{covers_spec, Agreement, AgreementId, AgreementState};
use crate::social::companion::Craft;
use crate::social::deed::{Deed, DeedId, DeedKind};
use crate::social::offer::{Offer, Terms, Work};
use crate::social::relation::{fold_room, lemma_room_push, lemma_short_log_fits, lemma_short_log_room, lemma_standing_bound};
use crate::social::response::{Response, Verdict};
use crate::social::scene::{aud, bram, odris, sela};
use crate::social::settling;
use crate::social::society::{lemma_society_log_numbered, Society};
use crate::sortie::march::{goal_on_map, on_map};
use crate::sortie::party::{healer_part, negotiate_scout, Pact, Part};
use crate::sortie::sortie::{Sortie, Stage, SortieEvent, Wound, MAX_TICKS};

verus! {

/// Scouting for the expedition: harder and more dangerous than the scout's
/// daily bounds, so it is negotiated fresh rather than assumed covered.
pub open spec fn outing_spec() -> Work {
    Work { craft: Craft::Scouting, grade: 3, danger: 4 }
}

pub open spec fn outing_terms_spec() -> Terms {
    Terms { share: 2, danger_cap: 5 }
}

/// Tending the fallen: inside the healer's standing settlement agreement.
pub open spec fn tend_spec() -> Work {
    Work { craft: Craft::Healing, grade: 3, danger: 3 }
}

pub fn outing() -> (w: Work)
    ensures
        w == outing_spec(),
{
    Work { craft: Craft::Scouting, grade: 3, danger: 4 }
}

pub fn outing_terms() -> (t: Terms)
    ensures
        t == outing_terms_spec(),
{
    Terms { share: 2, danger_cap: 5 }
}

pub fn tend() -> (w: Work)
    ensures
        w == tend_spec(),
{
    Work { craft: Craft::Healing, grade: 3, danger: 3 }
}

/// Departure day. The settled scene's last deed is tick 12.
pub fn depart() -> (at: Tick)
    ensures
        at == Tick(13),
{
    Tick(13)
}

/// Where the sortie is headed, relative to home, in x and z.
pub fn site_offset() -> (offset: [i32; 2])
    ensures
        offset == [-15i32, -8i32],
{
    [-15, -8]
}

/// Detour waypoints of the way home, relative to home.
pub fn way_offsets() -> (offsets: Vec<[i32; 2]>)
    ensures
        offsets@ == seq![[-16i32, 16i32]],
{
    let mut offsets = Vec::new();
    offsets.push([-16, 16]);
    proof {
        assert(offsets@ =~= seq![[-16i32, 16i32]]);
    }
    offsets
}

/// The route back, as x/z waypoints ending at home: the detour swings
/// around the scarp the outbound march drops down, then makes for home.
pub fn way_home(home: [i32; 3]) -> (way: Vec<[i32; 2]>)
    requires
        on_map(home),
        home[0] >= -crate::sortie::march::REACH + 16,
        home[2] <= crate::sortie::march::REACH - 16,
    ensures
        way@ == seq![[(home[0] - 16) as i32, (home[2] + 16) as i32], [home[0], home[2]]],
        forall|i: int| 0 <= i < way@.len() ==> goal_on_map(#[trigger] way@[i]),
{
    let offsets = way_offsets();
    let mut way: Vec<[i32; 2]> = Vec::new();
    let mut i: usize = 0;
    while i < offsets.len()
        invariant
            on_map(home),
            home[0] >= -crate::sortie::march::REACH + 16,
            home[2] <= crate::sortie::march::REACH - 16,
            offsets@ == seq![[-16i32, 16i32]],
            i <= 1,
            i == 0 ==> way@ == Seq::<[i32; 2]>::empty(),
            i == 1 ==> way@ == seq![[(home[0] - 16) as i32, (home[2] + 16) as i32]],
        decreases offsets@.len() - i,
    {
        let offset = offsets[i];
        way.push([home[0] + offset[0], home[2] + offset[1]]);
        proof {
            assert(way@ =~= seq![[(home[0] - 16) as i32, (home[2] + 16) as i32]]);
        }
        i = i + 1;
    }
    way.push([home[0], home[2]]);
    proof {
        assert(way@ =~= seq![[(home[0] - 16) as i32, (home[2] + 16) as i32], [home[0], home[2]]]);
    }
    way
}

/// Everyone wears their first body at departure.
pub fn facets() -> (facets: Facets)
    ensures
        facets.wf(),
        facets.bodies_spec() == map![1u64 => BodyRevisionId(0), 2u64 => BodyRevisionId(0), 3u64 => BodyRevisionId(0), 4u64 => BodyRevisionId(0)],
{
    let mut facets = Facets::new();
    facets.wears(aud(), BodyRevisionId(0));
    facets.wears(bram(), BodyRevisionId(0));
    facets.wears(odris(), BodyRevisionId(0));
    facets.wears(sela(), BodyRevisionId(0));
    proof {
        assert(facets.bodies_spec() =~= map![1u64 => BodyRevisionId(0), 2u64 => BodyRevisionId(0), 3u64 => BodyRevisionId(0), 4u64 => BodyRevisionId(0)]);
    }
    facets
}

/// A short log weighs any offer to someone of modest caution.
proof fn lemma_short_log_weighs(s: Society, offer: Offer)
    requires
        s.deeds().len() <= 100,
        s.companions_spec().contains_key(offer.asked_of.0) ==> -1000 <= s.companions_spec()[offer.asked_of.0].caution
            <= 1000,
    ensures
        s.can_weigh(offer),
{
    lemma_standing_bound(s.deeds(), offer.asked_of, offer.asked_by);
}

/// The settled society: the settling scene's people, answers, and homes.
pub fn settled_society() -> (society: Society)
    ensures
        society.ready(),
        society.companions_spec().dom() == set![1u64, 2u64, 3u64, 4u64],
        society.deeds().len() <= 12,
        society.next_agreement_spec() <= 2,
        forall|k: u64| #[trigger] society.companions_spec().contains_key(k) ==> -1000 <= society.companions_spec()[k].caution <= 1000,
{
    let mut society = settling::society();
    let mut settlement = settling::settlement();
    proof {
        let s = society;
        lemma_short_log_weighs(s, settling::ask_spec(SubjectId(2)));
        lemma_short_log_weighs(s, settling::ask_spec(SubjectId(3)));
        lemma_short_log_weighs(s, settling::ask_spec(SubjectId(4)));
        lemma_short_log_room(s.deeds(), 3);
    }
    let answered = settling::answers(&mut society);
    proof {
        let s = society;
        lemma_short_log_weighs(s, settling::ask_spec(SubjectId(2)));
        lemma_short_log_weighs(s, settling::sela_settled_spec());
        lemma_short_log_room(s.deeds(), 2);
    }
    let housed = settling::housings(&mut society, &mut settlement);
    proof {
        lemma_short_log_fits(society.deeds());
    }
    society
}

/// Whether `holder` lives under agreement `k`: it exists, they hold it,
/// and it stands.
pub open spec fn homes(s: Society, holder: SubjectId, k: u64) -> bool {
    &&& s.agreements_spec().contains_key(k)
    &&& s.agreements_spec()[k].holder == holder
    &&& s.agreements_spec()[k].state == AgreementState::Standing
}

/// The standing agreement `holder` holds with the lowest id, if any.
pub fn home_agreement_of(society: &Society, holder: SubjectId) -> (found: Option<AgreementId>)
    requires
        society.wf(),
    ensures
        match found {
            Some(id) => homes(*society, holder, id.0) && forall|k: u64| k < id.0 ==> !homes(*society, holder, k),
            None => forall|k: u64| !homes(*society, holder, k),
        },
{
    let all = society.agreements();
    let mut i: usize = 0;
    while i < all.len()
        invariant
            i <= all@.len(),
            society.wf(),
            forall|a: int, b: int| 0 <= a < b < all@.len() ==> (#[trigger] all@[a]).id.0 < (#[trigger] all@[b]).id.0,
            forall|a: int|
                0 <= a < all@.len() ==> society.agreements_spec().contains_key((#[trigger] all@[a]).id.0)
                    && *all@[a] == society.agreements_spec()[all@[a].id.0],
            forall|k: u64|
                society.agreements_spec().contains_key(k) ==> exists|a: int| 0 <= a < all@.len() && (#[trigger] all@[a]).id.0 == k,
            forall|a: int| 0 <= a < i ==> !homes(*society, holder, (#[trigger] all@[a]).id.0),
        decreases all@.len() - i,
    {
        let agreement = all[i];
        if agreement.holder == holder && agreement.standing() {
            proof {
                assert forall|k: u64| k < agreement.id.0 implies !homes(*society, holder, k) by {
                    if homes(*society, holder, k) {
                        let a = choose|a: int| 0 <= a < all@.len() && (#[trigger] all@[a]).id.0 == k;
                        if a >= i {
                            if a > i {
                                assert(all@[i as int].id.0 < all@[a].id.0);
                            }
                        }
                    }
                }
            }
            return Some(agreement.id);
        }
        i = i + 1;
    }
    proof {
        assert forall|k: u64| !homes(*society, holder, k) by {
            if homes(*society, holder, k) {
                let a = choose|a: int| 0 <= a < all@.len() && (#[trigger] all@[a]).id.0 == k;
            }
        }
    }
    None
}

/// The expedition's offer to the scout.
pub open spec fn scout_offer() -> Offer {
    Offer { asked_by: SubjectId(1), asked_of: SubjectId(2), work: outing_spec(), terms: outing_terms_spec() }
}

/// Whether `k` is the healer's home agreement: the lowest-id standing
/// agreement she holds.
pub open spec fn first_home(s: Society, k: u64) -> bool {
    homes(s, SubjectId(4), k) && forall|j: u64| j < k ==> !homes(s, SubjectId(4), j)
}

/// The muster: the healer's part and the pact from her standing home
/// agreement, the scout's part negotiated fresh, and the march mustered at
/// home. Returns the departure answers alongside the sortie, so a receipt
/// can assert on why each part exists.
pub fn muster_at(society: Society, home: [i32; 3], site: [i32; 3], way_home: Vec<[i32; 2]>, find: u8) -> (mustered: (
    Vec<Response>,
    Sortie,
))
    requires
        society.ready(),
        fold_room(society.deeds(), 1),
        society.next_agreement_spec() < u64::MAX,
        society.companions_spec().contains_key(1),
        society.companions_spec().contains_key(2),
        society.companions_spec().contains_key(4),
        society.can_weigh(scout_offer()),
        exists|k: u64| homes(society, SubjectId(4), k),
        forall|k: u64|
            #[trigger] first_home(society, k) ==> covers_spec(
                society.agreements_spec()[k].work,
                society.agreements_spec()[k].terms,
                tend_spec(),
            ),
        on_map(home),
        on_map(site),
        way_home@.len() > 0,
        forall|i: int| 0 <= i < way_home@.len() ==> goal_on_map(#[trigger] way_home@[i]),
    ensures
        ({
            let (answers, sortie) = mustered;
            &&& answers@.len() == 1
            &&& answers@[0].by == SubjectId(2)
            &&& answers@[0].verdict == society.weighed(scout_offer()).0
            &&& sortie.wf()
            &&& sortie.tick_spec() == 13
            &&& sortie.events_spec() == seq![SortieEvent::Departed { at: Tick(13) }]
            &&& sortie.stage_spec() == Stage::Idle
            &&& sortie.control_spec().home_spec() == SubjectId(1)
            &&& sortie.home_spec() == home
            &&& sortie.site_spec() == site
            &&& sortie.way_spec() == way_home@
            &&& forall|k: u64| #[trigger] sortie.positions_spec().contains_key(k) ==> sortie.positions_spec()[k] == home
            &&& sortie.pact_spec() matches Some(p) && p.successor == SubjectId(4) && first_home(society, p.under.0)
            &&& sortie.parts_spec().len() >= 1
            &&& sortie.parts_spec().len() <= 2
            &&& sortie.parts_spec().last() == (SubjectId(4), Part::Healer { under: sortie.pact_spec()->Some_0.under })
            &&& (sortie.outing_spec() is Some <==> sortie.parts_spec().len() == 2)
            &&& (answers@[0].verdict == Verdict::Accept ==> sortie.outing_spec() is Some)
            &&& (sortie.outing_spec() matches Some(o) ==> sortie.parts_spec()[0] == (SubjectId(2), Part::Scout { under: o })
                && answers@[0].verdict == Verdict::Accept)
        }),
{
    let mut society = society;
    let sela_home = match home_agreement_of(&society, sela()) {
        Some(id) => id,
        None => {
            proof {
                let k = choose|k: u64| homes(society, SubjectId(4), k);
                assert(!homes(society, SubjectId(4), k));
            }
            AgreementId(0)
        },
    };
    let healer = match healer_part(&society, sela_home, &tend()) {
        Some(part) => part,
        None => {
            proof {
                assert(first_home(society, sela_home.0));
            }
            Part::Healer { under: sela_home }
        },
    };
    proof {
        assert(first_home(society, sela_home.0));
        lemma_society_log_numbered(society);
        lemma_room_push(
            society.deeds(),
            0,
            Deed {
                id: DeedId(society.deeds().len() as u64),
                at: Tick(13),
                doer: SubjectId(2),
                toward: Some(SubjectId(1)),
                kind: DeedKind::OfferAccepted,
            },
        );
    }
    let ghost before = society;
    let negotiated = negotiate_scout(&mut society, aud(), bram(), outing(), outing_terms(), depart());
    let (answer, scout) = match negotiated {
        Ok(pair) => pair,
        Err(_) => {
            proof {
                assert(false);
            }
            return (Vec::new(), Sortie::muster(
                society, facets(), Control::begin(aud(), depart()), &[aud()], Vec::new(), None, None, tend(),
                home, site, find, way_home, depart(),
            ));
        },
    };
    let mut parts: Vec<(SubjectId, Part)> = Vec::new();
    let mut outing: Option<AgreementId> = None;
    if let Some(part) = scout {
        outing = Some(part.under());
        parts.push((bram(), part));
    }
    parts.push((sela(), healer));
    let everyone = [aud(), bram(), odris(), sela()];
    proof {
        assert(everyone@.contains(SubjectId(1))) by {
            assert(everyone@[0] == SubjectId(1));
        }
        assert(everyone@[1] == SubjectId(2));
        assert(everyone@[3] == SubjectId(4));
        assert forall|i: int| 0 <= i < parts@.len() implies everyone@.contains(#[trigger] parts@[i].0) by {
            if parts@[i].0 == SubjectId(2) {
                assert(everyone@[1] == SubjectId(2));
            } else {
                assert(everyone@[3] == SubjectId(4));
            }
        }
        assert(everyone@.contains(SubjectId(4)));
        assert(society.agreements_spec().contains_key(sela_home.0));
        assert(society.agreements_spec()[sela_home.0] == before.agreements_spec()[sela_home.0]);
    }
    let sortie = Sortie::muster(
        society,
        facets(),
        Control::begin(aud(), depart()),
        &everyone,
        parts,
        Some(Pact { under: sela_home, successor: sela() }),
        outing,
        tend(),
        home,
        site,
        find,
        way_home,
        depart(),
    );
    let answers = vec![answer];
    proof {
        assert(answers@[0] == answer);
    }
    (answers, sortie)
}

/// The ask the settling saw countered, put again: same work, same terms.
pub fn ask_again(society: &mut Society, at: Tick) -> (answer: Response)
    requires
        old(society).ready(),
        old(society).companions_spec().contains_key(1),
        old(society).companions_spec().contains_key(4),
        old(society).can_weigh(settling::ask_spec(SubjectId(4))),
    ensures
        final(society).wf(),
        answer.by == SubjectId(4),
        answer.at == at,
        answer.verdict == old(society).weighed(settling::ask_spec(SubjectId(4))).0,
        crate::social::response::views(answer.premises@) == old(society).weighed(settling::ask_spec(SubjectId(4))).1,
        final(society).deeds() == old(society).deeds().push(
            Deed {
                id: DeedId(old(society).deeds().len() as u64),
                at,
                doer: SubjectId(4),
                toward: Some(SubjectId(1)),
                kind: crate::social::society::verdict_kind(old(society).weighed(settling::ask_spec(SubjectId(4))).0),
            },
        ),
{
    match society.consider(&settling::ask_of(sela()), at) {
        Ok(answer) => answer,
        Err(_) => {
            proof {
                assert(false);
            }
            Response { by: sela(), at, verdict: Verdict::Refuse, premises: Vec::new(), recorded: DeedId(0) }
        },
    }
}

/// The one who stayed home and stays home: a subject with no part.
pub fn the_stay_at_home() -> (subject: SubjectId)
    ensures
        subject == SubjectId(3),
{
    odris()
}

} // verus!
