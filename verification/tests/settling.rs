use paredros::identity::{SubjectId, Tick};
use paredros::social::agreement::EndReason;
use paredros::social::deed::DeedKind;
use paredros::social::offer::Terms;
use paredros::social::response::{Premise, RulingKind, Verdict};
use paredros::social::settlement::{DailyRound, SettleError, Settlement};
use paredros::social::settling;
use paredros::social::society::Society;

const AUD: SubjectId = SubjectId(1);
const BRAM: SubjectId = SubjectId(2);
const ODRIS: SubjectId = SubjectId(3);
const SELA: SubjectId = SubjectId(4);

fn settled() -> (Society, Settlement) {
    let mut society = settling::society();
    let mut settlement = settling::settlement();
    settling::answers(&mut society).unwrap();
    settling::housings(&mut society, &mut settlement).unwrap();
    (society, settlement)
}

#[test]
fn a_home_is_taken_a_home_is_refused_and_a_home_is_bargained() {
    let mut society = settling::society();
    let answers = settling::answers(&mut society).unwrap();

    assert_eq!(answers[0].by, BRAM);
    assert_eq!(answers[0].verdict, Verdict::Accept);
    assert_eq!(answers[1].by, ODRIS);
    assert_eq!(answers[1].verdict, Verdict::Refuse);
    assert_eq!(answers[2].by, SELA);
    assert_eq!(answers[2].verdict, Verdict::Counteroffer(Terms::new(3, 3)));

    assert!(answers[1].premises.iter().any(|premise| matches!(premise, Premise::Confidence { margin: 0, .. })));
    assert!(answers[1].premises.iter().any(|premise| matches!(premise, Premise::TrustAsked { met: false, .. })));
    assert!(
        !answers[1].premises.iter().any(|premise| matches!(premise, Premise::DangerWeighed { .. })),
        "a gate never reached was claimed"
    );
    let cited = answers[1].cited_deeds();
    assert!(cited.iter().any(|id| {
        let deed = society.log().get(*id).unwrap();
        deed.doer == AUD && deed.toward == Some(ODRIS) && deed.kind == DeedKind::Abandoned
    }));

    assert!(answers[2].premises.iter().any(|premise| matches!(premise, Premise::TrustAsked { met: true, .. })));
    assert!(answers[2].premises.iter().any(|premise| matches!(premise, Premise::DangerWeighed { borne: false, .. })));
}

#[test]
fn an_accepted_agreement_changes_where_someone_lives_and_what_they_do() {
    let mut society = settling::society();
    let mut settlement = settling::settlement();
    settling::answers(&mut society).unwrap();

    for subject in [BRAM, ODRIS, SELA] {
        assert_eq!(settlement.daily(&society, subject), DailyRound::default());
    }

    settling::housings(&mut society, &mut settlement).unwrap();

    let bram = settlement.daily(&society, BRAM);
    assert_eq!(bram.home, Some(settling::the_gatehouse()));
    assert_eq!(bram.does.unwrap(), settling::bram_ask());

    let sela = settlement.daily(&society, SELA);
    assert_eq!(sela.home, Some(settling::the_still_room()));
    assert_eq!(sela.does.unwrap(), settling::sela_settled_ask().work);

    assert_eq!(settlement.daily(&society, ODRIS), DailyRound::default());

    for tenancy in settlement.tenancies() {
        let agreement = society.agreement(tenancy.under).unwrap();
        assert!(agreement.standing());
        assert_eq!(agreement.holder, tenancy.tenant);
        let formed = agreement.history[0];
        assert_eq!(society.log().get(formed.deed).unwrap().kind, DeedKind::AgreementFormed(tenancy.under));
    }
}

#[test]
fn moving_out_is_the_agreement_ending() {
    let (mut society, mut settlement) = settled();
    let under = settlement.tenancies().iter().find(|tenancy| tenancy.tenant == SELA).unwrap().under;

    society.end(under, SELA, EndReason::Resigned, Tick(13)).unwrap();

    assert_eq!(settlement.home_of(&society, SELA), None);
    assert_eq!(settlement.daily(&society, SELA), DailyRound::default());
    assert_eq!(settlement.tenant_of(&society, settling::the_still_room()), None);

    assert_eq!(settlement.home_of(&society, BRAM), Some(settling::the_gatehouse()));

    assert!(settlement
        .tenancies()
        .iter()
        .any(|tenancy| tenancy.tenant == SELA && tenancy.dwelling == settling::the_still_room()));

    let again = settlement
        .offer_home(&mut society, &settling::sela_settled_ask(), settling::the_still_room(), Tick(14))
        .unwrap();
    assert!(matches!(again.kind, RulingKind::Formed(_)));
    assert_eq!(settlement.tenant_of(&society, settling::the_still_room()), Some(SELA));
}

#[test]
fn a_standing_home_refuses_a_second_tenant() {
    let (mut society, mut settlement) = settled();

    let deeds_before = society.log().len();
    assert_eq!(
        settlement.offer_home(&mut society, &settling::sela_settled_ask(), settling::the_gatehouse(), Tick(13)),
        Err(SettleError::Occupied(settling::the_gatehouse(), BRAM))
    );
    assert_eq!(society.log().len(), deeds_before);
}

#[test]
fn a_home_nobody_agreed_to_cannot_be_created() {
    let mut society = settling::society();
    let mut settlement = settling::settlement();

    let ruling = settlement
        .offer_home(&mut society, &settling::ask_of(ODRIS), settling::the_still_room(), Tick(8))
        .unwrap();
    assert_eq!(ruling.kind, RulingKind::Declined);
    assert!(settlement.tenancies().is_empty());
    assert_eq!(settlement.home_of(&society, ODRIS), None);
}

#[test]
fn a_settle_error_wraps_the_social_one() {
    let mut society = Society::new();
    let mut settlement = settling::settlement();
    let result = settlement.offer_home(&mut society, &settling::ask_of(BRAM), settling::the_gatehouse(), Tick(1));
    assert_eq!(result, Err(SettleError::Social(paredros::social::society::SocialError::NoSuchCompanion(AUD))));
    assert_eq!(SettleError::from(paredros::social::society::SocialError::NoSuchCompanion(BRAM)),
        SettleError::Social(paredros::social::society::SocialError::NoSuchCompanion(BRAM)));
}

#[test]
fn the_settling_replays_to_the_same_homes() {
    let run = || {
        let mut society = settling::society();
        let mut settlement = settling::settlement();
        let answers = settling::answers(&mut society).unwrap();
        settling::housings(&mut society, &mut settlement).unwrap();
        let record = format!("{:?}", (&society, &settlement));
        (answers, record, society, settlement)
    };

    let (first_answers, first_record, first_society, first_settlement) = run();
    let (second_answers, second_record, second_society, second_settlement) = run();

    assert_eq!(first_answers, second_answers);
    assert_eq!(first_record, second_record);
    assert_eq!(first_society, second_society);
    assert_eq!(first_settlement, second_settlement);
    assert_eq!(first_settlement.tenancies().len(), 2);
}
