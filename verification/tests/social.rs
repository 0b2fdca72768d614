use paredros::identity::{SubjectId, Tick};
use paredros::social::companion::{Companion, Craft, Skill};
use paredros::social::deed::{DeedId, DeedKind, DeedLog};
use paredros::social::response::{cited_deeds, Premise};
use paredros::social::offer::{Offer, Terms, Work};
use paredros::social::relation::Relations;
use paredros::social::settlement::{DailyRound, Dwelling, DwellingId, SettleError, Settlement};
use paredros::social::society::Society;

#[test]
fn a_missing_craft_reads_as_grade_zero() {
    let bram = Companion::new(SubjectId(2), "Bram", vec![Skill::new(Craft::Scouting, 4)], 0);
    assert_eq!(bram.grade_in(Craft::Smithing), 0);

    let smithing = Work { craft: Craft::Smithing, grade: 2, danger: 0 };
    let read = bram.read(&smithing);
    assert_eq!(read.margin(), -2);
    assert!(!read.sufficient());
}

#[test]
fn a_refusal_costs_the_refuser_nothing() {
    assert_eq!(DeedKind::OfferRefused.weight(), (0, 0));
}

#[test]
fn the_log_only_grows() {
    let mut log = DeedLog::new();
    let first = log.record(Tick(1), SubjectId(1), Some(SubjectId(2)), DeedKind::StoodBy);
    let second = log.record(Tick(2), SubjectId(1), None, DeedKind::Took);
    assert_ne!(first, second);
    assert_eq!(log.len(), 2);
    assert_eq!(log.get(first).unwrap().kind, DeedKind::StoodBy);
    assert_eq!(log.done_to(SubjectId(2), SubjectId(1)).len(), 1);
}

const AUD: SubjectId = SubjectId(1);
const ODRIS: SubjectId = SubjectId(3);

#[test]
fn standing_is_a_view_over_the_log_and_names_its_deeds() {
    let mut log = DeedLog::new();
    let shared = log.record(Tick(3), AUD, Some(ODRIS), DeedKind::Shared);
    let left = log.record(Tick(4), AUD, Some(ODRIS), DeedKind::Abandoned);

    let standing = Relations::derive(&log).of(ODRIS, AUD);
    assert_eq!(standing.trust, -4);
    assert_eq!(standing.affinity, -1);
    assert_eq!(standing.from_deeds, vec![shared, left]);

    assert!(!Relations::derive(&log).of(AUD, ODRIS).known());
}

#[test]
fn an_unfounded_dwelling_cannot_be_offered() {
    let mut settlement = Settlement::new();
    let mut society = Society::new();
    let offer = Offer::new(SubjectId(1), SubjectId(2), Work::new(Craft::Hauling, 1, 0), Terms::new(1, 1));
    assert_eq!(
        settlement.offer_home(&mut society, &offer, DwellingId(9), Tick(1)),
        Err(SettleError::NoSuchDwelling(DwellingId(9)))
    );
}

#[test]
fn nobody_lives_anywhere_until_an_agreement_says_so() {
    let mut settlement = Settlement::new();
    settlement.found(Dwelling { id: DwellingId(1), name: "the gatehouse".into() });
    let society = Society::new();
    assert_eq!(settlement.home_of(&society, SubjectId(2)), None);
    assert_eq!(settlement.tenant_of(&society, DwellingId(1)), None);
    assert_eq!(settlement.daily(&society, SubjectId(2)), DailyRound::default());
}

#[test]
fn a_self_deed_moves_no_standing_and_a_log_lookup_past_the_end_is_none() {
    let mut log = DeedLog::new();
    log.record(Tick(1), AUD, Some(AUD), DeedKind::StoodBy);
    assert!(!Relations::derive(&log).of(AUD, AUD).known());
    assert!(log.get(paredros::social::deed::DeedId(5)).is_none());
    assert!(!log.is_empty());
}

#[test]
fn deed_weights_are_the_written_table() {
    assert_eq!(DeedKind::StoodBy.weight(), (3, 2));
    assert_eq!(DeedKind::Abandoned.weight(), (-5, -3));
    assert_eq!(DeedKind::Shared.weight(), (1, 2));
    assert_eq!(DeedKind::OfferAccepted.phrase(), "took up my offer");
}

#[test]
fn a_society_welcomes_and_names_its_people() {
    let mut society = Society::new();
    society.welcome(Companion::new(AUD, "Aud", vec![], 0));
    assert_eq!(society.name_of(AUD), "Aud");
    assert_eq!(society.name_of(ODRIS), "someone");
    assert!(society.companion(AUD).is_some());
    assert_eq!(society.companions().len(), 1);
}

#[test]
fn cited_deeds_come_oldest_first_and_once() {
    let premises = vec![
        Premise::Deed { deed: DeedId(5), at: Tick(5), doer: SubjectId(1), kind: DeedKind::Shared, trust: 1, affinity: 1 },
        Premise::Standing { toward: SubjectId(1), trust: 2, affinity: 0, from_deeds: vec![DeedId(2), DeedId(5), DeedId(0)] },
        Premise::Deed { deed: DeedId(2), at: Tick(2), doer: SubjectId(1), kind: DeedKind::Shared, trust: 1, affinity: 1 },
    ];
    assert_eq!(cited_deeds(&premises), vec![DeedId(0), DeedId(2), DeedId(5)]);
}
