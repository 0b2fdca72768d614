use paredros::identity::control::{Control, ControlIntent};
use paredros::identity::facets::{Facets, Office};
use paredros::identity::{BodyRevisionId, FactionId, IdentityError, OfficeId, SubjectId, Tick};

const AUD: SubjectId = SubjectId(1);
const BRAM: SubjectId = SubjectId(2);

#[test]
fn a_tag_in_returns_home_and_a_succession_moves_it() {
    let mut control = Control::begin(AUD, Tick(0));
    control.apply(ControlIntent::TagIn { to: BRAM, at: Tick(4) }).unwrap();
    assert_eq!(control.played(), BRAM);
    assert_eq!(control.home(), AUD);

    control.apply(ControlIntent::TagOut { at: Tick(6) }).unwrap();
    assert_eq!(control.played(), AUD);

    control.apply(ControlIntent::Succeed { to: BRAM, at: Tick(9) }).unwrap();
    assert_eq!(control.played(), BRAM);
    assert_eq!(control.home(), BRAM);
    assert!(!control.tagged_in());
}

#[test]
fn the_pointer_replays_from_its_intents() {
    let mut control = Control::begin(AUD, Tick(0));
    for intent in [
        ControlIntent::TagIn { to: BRAM, at: Tick(4) },
        ControlIntent::TagOut { at: Tick(6) },
        ControlIntent::Succeed { to: BRAM, at: Tick(9) },
    ] {
        control.apply(intent).unwrap();
    }
    assert_eq!(Control::replay(control.log()).unwrap(), control);
}

#[test]
fn a_second_tag_in_is_refused() {
    let mut control = Control::begin(AUD, Tick(0));
    control.apply(ControlIntent::TagIn { to: BRAM, at: Tick(4) }).unwrap();
    assert_eq!(
        control.apply(ControlIntent::TagIn { to: SubjectId(3), at: Tick(5) }),
        Err(IdentityError::AlreadyTaggedIn)
    );
}

const WARDEN: OfficeId = OfficeId(1);
const HOLD: FactionId = FactionId(1);
const FIRST: SubjectId = SubjectId(1);
const SECOND: SubjectId = SubjectId(2);

fn wardenship() -> Facets {
    let mut facets = Facets::new();
    facets
        .found(Office { id: WARDEN, faction: HOLD, name: "warden".into() })
        .unwrap();
    facets
}

#[test]
fn an_office_survives_its_holder() {
    let mut facets = wardenship();
    facets.hold(WARDEN, FIRST, Tick(1)).unwrap();
    assert_eq!(facets.vacate(WARDEN, Tick(9)).unwrap(), FIRST);
    facets.hold(WARDEN, SECOND, Tick(9)).unwrap();

    assert_eq!(facets.holder_of(WARDEN), Some(SECOND));
    assert!(facets.office(WARDEN).is_some());
    let line = facets.line_of(WARDEN);
    assert_eq!(line.len(), 2);
    assert_eq!(line[0].holder, FIRST);
    assert_eq!(line[0].until, Some(Tick(9)));
}

#[test]
fn an_office_is_vacated_and_not_displaced() {
    let mut facets = wardenship();
    facets.hold(WARDEN, FIRST, Tick(1)).unwrap();
    assert_eq!(facets.hold(WARDEN, SECOND, Tick(2)), Err(IdentityError::OfficeHeld(WARDEN, FIRST)));
}

#[test]
fn the_facets_stay_four() {
    let mut facets = wardenship();
    facets.wears(FIRST, BodyRevisionId(7));
    facets.join(FIRST, HOLD);
    facets.hold(WARDEN, FIRST, Tick(1)).unwrap();

    facets.wears(FIRST, BodyRevisionId(8));
    assert!(facets.belongs_to(FIRST, HOLD));
    assert_eq!(facets.offices_held_by(FIRST), vec![WARDEN]);

    facets.leave(FIRST, HOLD);
    assert_eq!(facets.body_of(FIRST), Some(BodyRevisionId(8)));
    assert_eq!(facets.holder_of(WARDEN), Some(FIRST));
}

#[test]
fn a_vacant_office_cannot_be_vacated() {
    let mut facets = wardenship();
    assert_eq!(facets.vacate(WARDEN, Tick(1)), Err(IdentityError::OfficeVacant(WARDEN)));
    assert_eq!(facets.vacate(OfficeId(9), Tick(1)), Err(IdentityError::NoSuchOffice(OfficeId(9))));
    assert_eq!(
        facets.found(Office { id: WARDEN, faction: HOLD, name: "again".into() }),
        Err(IdentityError::OfficeExists(WARDEN))
    );
}

#[test]
fn a_tag_out_while_home_is_refused_and_changes_nothing() {
    let mut control = Control::begin(AUD, Tick(0));
    assert_eq!(control.apply(ControlIntent::TagOut { at: Tick(1) }), Err(IdentityError::NotTaggedIn));
    assert_eq!(control.apply(ControlIntent::Begin { subject: BRAM, at: Tick(1) }), Err(IdentityError::AlreadyBegun));
    assert_eq!(control.log().len(), 1);
    assert_eq!(Control::replay(&[]), Err(IdentityError::NotBegun));
}

#[test]
fn time_saturates_rather_than_wrapping() {
    assert_eq!(Tick(5).after(3), Tick(8));
    assert_eq!(Tick(u64::MAX - 1).after(5), Tick(u64::MAX));
}
