//! The sortie driven end to end over a small terrain of our own: a high
//! plateau holding home, a scarp six voxels down to a plain holding the
//! site, and rock that a dig can hew out.

use std::collections::BTreeSet;

use paredros::identity::control::ControlIntent;
use paredros::identity::{BodyRevisionId, SubjectId, Tick};
use paredros::social::deed::DeedKind;
use paredros::social::response::{Premise, Response, Verdict};
use paredros::sortie::march::{apart, arrived, distance_to, heading, same_spot, stand, Stride, Toward};
use paredros::sortie::scene;
use paredros::sortie::sortie::{Need, Sortie, SortieEvent, MAX_TICKS, SAFE_FALL};

const AUD: SubjectId = SubjectId(1);
const BRAM: SubjectId = SubjectId(2);
const ODRIS: SubjectId = SubjectId(3);
const SELA: SubjectId = SubjectId(4);

/// Columns of rock up to a surface height, less whatever was dug out.
struct Terrain {
    dug: BTreeSet<[i32; 3]>,
}

impl Terrain {
    fn new() -> Self {
        Terrain { dug: BTreeSet::new() }
    }

    /// The plateau stands ten high east of the scarp; the plain four.
    fn surface(x: i32) -> i32 {
        if x > -6 {
            10
        } else {
            4
        }
    }

    fn solid(&self, at: [i32; 3]) -> bool {
        at[1] <= Self::surface(at[0]) && !self.dug.contains(&at)
    }

    fn stand(x: i32, z: i32) -> [i32; 3] {
        [x, Self::surface(x) + 1, z]
    }

    /// One step: walk on, climb one, or drop to whatever holds the body;
    /// refused when neither the feet nor the voxel above them is clear.
    fn step(&self, from: [i32; 3], to: [i32; 3]) -> [i32; 3] {
        let clear = |p: [i32; 3]| !self.solid(p) && !self.solid([p[0], p[1] + 1, p[2]]);
        let mut at = if clear(to) {
            to
        } else if self.solid(to) && clear([to[0], to[1] + 1, to[2]]) {
            [to[0], to[1] + 1, to[2]]
        } else {
            return from;
        };
        while !self.solid([at[0], at[1] - 1, at[2]]) {
            at[1] -= 1;
        }
        at
    }

    /// Hews out the ball of `radius` about `at`, counting the rock removed.
    fn carve(&mut self, at: [i32; 3], radius: u32) -> u32 {
        let r = radius as i32;
        let mut removed = 0;
        for dx in -r..=r {
            for dy in -r..=r {
                for dz in -r..=r {
                    if dx.abs() + dy.abs() + dz.abs() <= r {
                        let p = [at[0] + dx, at[1] + dy, at[2] + dz];
                        if self.solid(p) {
                            self.dug.insert(p);
                            removed += 1;
                        }
                    }
                }
            }
        }
        removed
    }
}

/// Runs the sortie to the end, answering every need from the terrain.
fn run(sortie: &mut Sortie, terrain: &mut Terrain) {
    loop {
        let mut need = sortie.advance();
        loop {
            match need {
                Need::Step { from, to } => need = sortie.stepped(terrain.step(from, to)),
                Need::Carve { at, radius } => need = sortie.carved(terrain.carve(at, radius)),
                Need::Ticked => break,
                Need::Halted => return,
            }
        }
    }
}

fn home() -> [i32; 3] {
    Terrain::stand(0, 0)
}

fn site() -> [i32; 3] {
    let offset = scene::site_offset();
    Terrain::stand(offset[0], offset[1])
}

fn march_from(society: paredros::social::society::Society) -> (Vec<Response>, Sortie) {
    let mut terrain = Terrain::new();
    let (answers, mut sortie) = scene::muster_at(society, home(), site(), scene::way_home(home()), 7);
    run(&mut sortie, &mut terrain);
    (answers, sortie)
}

fn played_through() -> (Vec<Response>, Sortie) {
    march_from(scene::settled_society())
}

fn grudged() -> (Vec<Response>, Sortie) {
    let mut society = scene::settled_society();
    society.record(Tick(scene::depart().0 - 1), AUD, Some(BRAM), DeedKind::Abandoned);
    march_from(society)
}

fn tick_of(event: &SortieEvent) -> Tick {
    match event {
        SortieEvent::Departed { at }
        | SortieEvent::Fell { at, .. }
        | SortieEvent::Wounded { at, .. }
        | SortieEvent::Downed { at, .. }
        | SortieEvent::PactInvoked { at, .. }
        | SortieEvent::TaggedIn { at, .. }
        | SortieEvent::Tended { at, .. }
        | SortieEvent::TaggedOut { at }
        | SortieEvent::Dug { at, .. }
        | SortieEvent::Took { at, .. }
        | SortieEvent::SharedOut { at, .. }
        | SortieEvent::Returned { at } => *at,
    }
}

#[test]
fn the_sortie_returns_and_replays_to_the_same_hash() {
    let (_, first) = played_through();
    let (_, second) = played_through();

    assert!(first.done(), "the sortie never came home");
    assert!(first.carried.is_some(), "nothing came back");
    assert_eq!(first.events, second.events);
    assert_eq!(first.trail(), second.trail());
    assert_eq!(first.control.log(), second.control.log());
    assert_eq!(first.hewn, second.hewn);
    assert!(first.hewn > 0, "the climb home was never dug");
}

#[test]
fn a_tag_in_occurs_mid_action_under_the_pact() {
    let (_, sortie) = played_through();

    let invoked = sortie
        .events
        .iter()
        .find(|event| matches!(event, SortieEvent::PactInvoked { .. }))
        .expect("the pact never fired");
    let tagged_in = sortie
        .events
        .iter()
        .find_map(|event| match event {
            SortieEvent::TaggedIn { at, to } => Some((*at, *to)),
            _ => None,
        })
        .expect("nobody tagged in");
    let tagged_out = sortie
        .events
        .iter()
        .find_map(|event| match event {
            SortieEvent::TaggedOut { at } => Some(*at),
            _ => None,
        })
        .expect("nobody tagged back out");
    let returned = sortie
        .events
        .iter()
        .find_map(|event| match event {
            SortieEvent::Returned { at } => Some(*at),
            _ => None,
        })
        .expect("the sortie never returned");

    assert!(tick_of(invoked).0 > scene::depart().0);
    assert!(tagged_out.0 > tagged_in.0 .0, "the rescue took no time at all");
    assert!(tagged_out.0 < returned.0);
    assert_eq!(tagged_in.1, SELA);

    assert!(sortie
        .control
        .log()
        .iter()
        .any(|intent| matches!(intent, ControlIntent::TagIn { to, .. } if *to == SELA)));
    assert_eq!(sortie.control.played(), AUD);
    assert!(!sortie.control.tagged_in());

    let deeds = sortie.society.log();
    assert!(deeds.deeds().iter().any(|deed| deed.doer == SELA
        && deed.toward == Some(AUD)
        && matches!(deed.kind, DeedKind::PerformedUnderAgreement(_))));
    assert!(deeds
        .deeds()
        .iter()
        .any(|deed| deed.doer == SELA && deed.toward == Some(AUD) && deed.kind == DeedKind::StoodBy));
}

#[test]
fn an_injury_persists_as_a_body_revision_fact() {
    let (_, sortie) = played_through();

    let wound = sortie
        .wounds
        .iter()
        .find(|wound| wound.subject == AUD)
        .expect("the played body was never wounded");
    assert!(wound.fell > SAFE_FALL);
    assert_eq!(wound.revision, BodyRevisionId(1));
    assert_eq!(sortie.facets.body_of(AUD), Some(wound.revision));

    assert!(sortie
        .wounds
        .iter()
        .any(|wound| wound.subject == BRAM && wound.revision == BodyRevisionId(1)));
    assert!(
        !sortie
            .events
            .iter()
            .any(|event| matches!(event, SortieEvent::Downed { who, .. } if *who == BRAM)),
        "a companion downed; only the home body downs"
    );
}

#[test]
fn a_sortie_deed_explains_a_later_answer() {
    let mut before = scene::settled_society();
    let asked = scene::ask_again(&mut before, scene::depart());
    assert!(matches!(asked.verdict, Verdict::Counteroffer(_)));

    let (_, sortie) = played_through();
    let shared_at = sortie
        .events
        .iter()
        .find_map(|event| match event {
            SortieEvent::SharedOut { at, with } if *with == SELA => Some(*at),
            _ => None,
        })
        .expect("the salvage was never shared with Sela");
    let mut society = sortie.society;

    let answer = scene::ask_again(&mut society, Tick(sortie.events.len() as u64 + 200));
    assert_eq!(answer.verdict, Verdict::Accept);
    let cited = answer.cited_deeds();
    let sortie_deed = cited
        .iter()
        .find(|id| {
            let deed = society.log().get(**id).unwrap();
            deed.at == shared_at && deed.kind == DeedKind::Shared && deed.doer == AUD
        })
        .expect("the answer does not cite the sortie's share");
    let deed = society.log().get(*sortie_deed).unwrap();
    assert_eq!(deed.toward, Some(SELA));
}

#[test]
fn a_refusal_stands_and_nobody_is_ordered() {
    let (answers, sortie) = grudged();

    let bram = answers.iter().find(|answer| answer.by == BRAM).expect("Bram was asked");
    assert_eq!(bram.verdict, Verdict::Refuse);
    assert!(bram
        .premises
        .iter()
        .any(|premise| matches!(premise, Premise::TrustAsked { met: false, .. })));

    assert!(sortie.done(), "the sortie still comes home without a scout");
    let start = sortie.trail()[0].clone();
    for row in sortie.trail() {
        assert_eq!(row[1], start[1], "the refused companion moved");
    }
    assert!(sortie.wounds.iter().all(|wound| wound.subject != BRAM));
    for row in sortie.trail() {
        assert_eq!(row[2], start[2], "a partless companion moved");
    }
    assert_eq!(scene::the_stay_at_home(), ODRIS);
}

#[test]
fn the_negotiation_is_real_and_the_agreement_closes() {
    let (answers, sortie) = played_through();

    let bram = answers.iter().find(|answer| answer.by == BRAM).expect("Bram was asked");
    assert_eq!(bram.verdict, Verdict::Accept);
    assert!(!bram.premises.is_empty());

    let outing = sortie
        .society
        .agreements()
        .into_iter()
        .find(|agreement| agreement.holder == BRAM && agreement.work == scene::outing())
        .expect("the expedition agreement exists");
    assert!(!outing.standing());
    let ended = sortie
        .society
        .log()
        .deeds()
        .iter()
        .any(|deed| deed.kind == DeedKind::AgreementEnded(outing.id));
    assert!(ended);
}

#[test]
fn every_trail_row_is_one_tick_and_the_run_ends_in_time() {
    let (_, sortie) = played_through();
    let departed = scene::depart().0;
    assert!(sortie.tick().0 - departed <= MAX_TICKS);
    assert_eq!(sortie.trail().len() as u64, sortie.tick().0 - departed + 1);
    assert!(sortie.trail().iter().all(|row| row.len() == 4));
    assert_eq!(sortie.at(AUD)[0], home()[0]);
    assert_eq!(sortie.at(AUD)[2], home()[2]);
    assert_eq!(sortie.at(ODRIS), home());
}

#[test]
fn the_site_yields_its_find_to_the_leader() {
    let (_, sortie) = played_through();
    let carried = sortie.carried.expect("nothing came back");
    assert_eq!(carried.what, 7);
    assert_eq!(carried.from, site());
    assert!(sortie
        .events
        .iter()
        .any(|event| matches!(event, SortieEvent::Took { what: 7, .. })));
}

#[test]
fn a_sortie_already_home_asks_nothing_more() {
    let (_, mut sortie) = played_through();
    let events = sortie.events.clone();
    let tick = sortie.tick();
    assert_eq!(sortie.advance(), Need::Halted);
    assert_eq!(sortie.events, events);
    assert_eq!(sortie.tick(), tick);
}

#[test]
fn the_way_home_detours_then_makes_for_home() {
    let way = scene::way_home([10, 11, -3]);
    assert_eq!(way, vec![[-6, 13], [10, -3]]);
}

#[test]
fn the_march_measures_in_the_walking_plane() {
    assert!(arrived([3, 9, -2], [3, -2]));
    assert!(!arrived([3, 9, -2], [3, -1]));
    assert_eq!(apart([0, 0, 0], [3, 100, -5]), 5);
    assert_eq!(distance_to([0, 7, 0], [-4, 2]), 4);
    assert_eq!(heading([0, 7, 0], [-4, 2]), [-1, 1]);
    assert_eq!(heading([5, 7, 5], [5, 5]), [0, 0]);
    assert!(same_spot([1, 2, 3], [1, 2, 3]));
    assert!(!same_spot([1, 2, 3], [1, 3, 3]));
}

#[test]
fn a_refused_step_shoulders_around_then_gives_up() {
    let (mut walk, stride) = Toward::begin([0, 5, 0], [4, 0], 0);
    assert_eq!(stride, Stride::Ask([1, 5, 0]));
    // Refused straight ahead: the first shoulder, clockwise.
    assert_eq!(walk.answer([0, 5, 0]), Stride::Ask([0, 5, -1]));
    // Refused again: the other shoulder.
    assert_eq!(walk.answer([0, 5, 0]), Stride::Ask([0, 5, 1]));
    // Refused everywhere: the walker holds, keeping its shoulder.
    assert_eq!(walk.answer([0, 5, 0]), Stride::Stop { at: [0, 5, 0], shoulder: 0 });

    let (mut walk, _) = Toward::begin([0, 5, 0], [4, 0], 0);
    walk.answer([0, 5, 0]);
    // The shoulder that worked is remembered.
    assert_eq!(walk.answer([0, 5, -1]), Stride::Stop { at: [0, 5, -1], shoulder: 1 });

    let (_, stride) = Toward::begin([4, 5, 0], [4, 0], -1);
    assert_eq!(stride, Stride::Stop { at: [4, 5, 0], shoulder: -1 });
}

#[test]
fn a_stance_is_on_the_open_surface_where_a_body_fits() {
    let surface = |x: i32, _z: i32| if x > 5 { None } else { Some(Terrain::surface(x)) };
    let fits = |at: [i32; 3]| at[2] != 4;
    assert_eq!(stand(&surface, &fits, 0, 0), Some(home()));
    assert_eq!(stand(&surface, &fits, -15, -8), Some(site()));
    assert_eq!(stand(&surface, &fits, 0, 4), None);
    assert_eq!(stand(&surface, &fits, 6, 0), None);
}

fn positions(sortie: &Sortie) -> Vec<[i32; 3]> {
    [AUD, BRAM, ODRIS, SELA].iter().map(|subject| sortie.at(*subject)).collect()
}

#[test]
fn only_the_walker_asked_about_moves_and_only_where_the_terrain_landed() {
    let mut terrain = Terrain::new();
    let (_, mut sortie) =
        scene::muster_at(scene::settled_society(), home(), site(), scene::way_home(home()), 7);
    let mut steps = 0;
    loop {
        let before = positions(&sortie);
        let mut need = sortie.advance();
        assert_eq!(positions(&sortie), before, "a tick's start moved somebody");
        loop {
            match need {
                Need::Step { from, to } => {
                    let walker = sortie.awaiting().expect("a step is asked for a walker");
                    assert_eq!(sortie.at(walker), from);
                    let before = positions(&sortie);
                    let landed = terrain.step(from, to);
                    need = sortie.stepped(landed);
                    steps += 1;
                    for (index, subject) in [AUD, BRAM, ODRIS, SELA].iter().enumerate() {
                        let now = sortie.at(*subject);
                        assert!(
                            now == before[index] || (*subject == walker && now == landed),
                            "{subject:?} moved without the terrain landing them there"
                        );
                    }
                }
                Need::Carve { at, radius } => {
                    let before = positions(&sortie);
                    need = sortie.carved(terrain.carve(at, radius));
                    assert_eq!(positions(&sortie), before, "a dig moved somebody");
                }
                Need::Ticked => break,
                Need::Halted => {
                    assert!(sortie.done());
                    assert!(steps > 0);
                    return;
                }
            }
        }
    }
}

#[test]
fn a_home_coming_shares_with_every_part_and_ends_the_outing() {
    let (_, sortie) = played_through();
    let returned_at = match sortie.events.last() {
        Some(SortieEvent::Returned { at }) => *at,
        other => panic!("the last event is not the return: {other:?}"),
    };
    assert_eq!(returned_at, sortie.tick());
    for with in [BRAM, SELA] {
        assert!(sortie.events.contains(&SortieEvent::SharedOut { at: returned_at, with }));
        assert!(sortie.society.log().deeds().iter().any(|deed| deed.at == returned_at
            && deed.doer == AUD
            && deed.toward == Some(with)
            && deed.kind == DeedKind::Shared));
    }
    assert!(!sortie.events.contains(&SortieEvent::SharedOut { at: returned_at, with: ODRIS }));
}

#[test]
fn a_played_body_that_makes_no_progress_digs_toward_its_goal_at_head_height() {
    let (_, mut sortie) = scene::muster_at(scene::settled_society(), home(), site(), scene::way_home(home()), 7);
    let start = sortie.at(AUD);
    // Walled in: the terrain refuses every step, so nobody ever moves.
    for tick in 1..=4 {
        let mut need = sortie.advance();
        assert_eq!(sortie.awaiting(), Some(AUD), "tick {tick} opens with the played body's step");
        loop {
            match need {
                Need::Step { from, .. } => need = sortie.stepped(from),
                Need::Ticked => break,
                other => panic!("tick {tick} asked {other:?}"),
            }
        }
    }
    assert_eq!(sortie.at(AUD), start);
    let goal = [site()[0], site()[2]];
    let h = heading(start, goal);
    assert_eq!(
        sortie.advance(),
        Need::Carve { at: [start[0] + h[0], start[1] + 2, start[2] + h[1]], radius: 1 }
    );
    let mut need = sortie.carved(3);
    while let Need::Step { from, .. } = need {
        need = sortie.stepped(from);
    }
    assert_eq!(need, Need::Ticked);
    assert_eq!(sortie.hewn, 3);
    assert!(sortie.events.contains(&SortieEvent::Dug { at: sortie.tick(), removed: 3 }));
}

#[test]
fn each_tick_the_scout_walks_by_its_part_and_the_healer_keeps_its_trail() {
    let mut terrain = Terrain::new();
    let (_, mut sortie) = scene::muster_at(scene::settled_society(), home(), site(), scene::way_home(home()), 7);
    let mut walkers = Vec::new();
    let mut need = sortie.advance();
    loop {
        match need {
            Need::Step { from, to } => {
                let walker = sortie.awaiting().expect("a step is asked of someone");
                if walkers.last() != Some(&walker) {
                    walkers.push(walker);
                }
                need = sortie.stepped(terrain.step(from, to));
            }
            Need::Carve { at, radius } => need = sortie.carved(terrain.carve(at, radius)),
            Need::Ticked => break,
            Need::Halted => panic!("the first tick halted"),
        }
    }
    // The played body first; then the scout, less than a lead ahead; the
    // healer stands within its trail of the leader and is not asked.
    assert_eq!(walkers, vec![AUD, BRAM]);
    assert_ne!(sortie.at(BRAM), home());
    assert_eq!(sortie.at(SELA), home());
    assert_eq!(sortie.at(ODRIS), home());
}
