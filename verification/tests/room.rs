//! The room's frame-health gate, its probe driven over a chamber of our
//! own, and the geometry the picture is checked against.

use std::collections::BTreeSet;

use paredros::room::frame_health::{FrameDecision, FrameHealth, PresentationPolicy, SharedFault};
use paredros::room::probe::{trace_at, Probe, ProbeError, TICKS};
use paredros::room::room::{chamber_at, Room, MIN_HILL, ROOF, ROOM_RADIUS, SEED};
use paredros::room::hunt::{buried, column_site, hillside, thinnest};
use paredros::room::residency::{
    band, focus_stance, moved_focus, page_ranges, selected_keys, ResidencyError, ResidencyPolicy, PAGE_CLOSE,
    PAGE_LEADING, PAGE_PLANNING, RESIDENT_BUDGET_BYTES,
};
use paredros::room::receipt::{median, HeadedValidationProbe, RebuildProbe};
use paredros::room::scene::{cyan_at, d1_pillars, is_cyan, Capture};

#[derive(Default)]
struct FakeFrameLoop {
    acquired: usize,
    presented: usize,
}

impl FakeFrameLoop {
    fn run(&mut self, health: &mut FrameHealth, frame: u64, prior_error: Option<&str>, current_error: Option<&str>) {
        if let Some(error) = prior_error {
            health.finish_validation("tenant", "producer", frame - 1, Some(error.into()));
        }
        if !matches!(health.begin_frame(frame), FrameDecision::Proceed) {
            return;
        }
        if current_error.is_some() && health.policy() == PresentationPolicy::AwaitedDiagnostic {
            let decision = health.finish_validation("tenant", "producer", frame, current_error.map(str::to_owned));
            if matches!(decision, FrameDecision::Suppress | FrameDecision::RebuildAll(_)) {
                return;
            }
        }
        self.acquired += 1;
        self.presented += 1;
    }
}

#[test]
fn awaited_validation_suppresses_the_scoped_frame_before_present() {
    let mut health = FrameHealth::new(PresentationPolicy::AwaitedDiagnostic);
    let mut loop_ = FakeFrameLoop::default();
    loop_.run(&mut health, 1, None, Some("bad tenant copy"));
    assert_eq!(loop_.acquired, 0);
    assert_eq!(loop_.presented, 0);
    assert_eq!(health.validations()[0].frame, 1);
    assert_eq!(health.validations()[0].tenant_name, "tenant");
    loop_.run(&mut health, 2, None, None);
    assert_eq!(loop_.presented, 1);
}

#[test]
fn optimistic_validation_presents_current_then_suppresses_next_unpresented() {
    let mut health = FrameHealth::new(PresentationPolicy::Optimistic);
    let mut loop_ = FakeFrameLoop::default();
    loop_.run(&mut health, 1, None, None);
    assert_eq!((loop_.acquired, loop_.presented), (1, 1));
    loop_.run(&mut health, 2, Some("bad tenant copy"), None);
    assert_eq!((loop_.acquired, loop_.presented), (1, 1));
    loop_.run(&mut health, 3, None, None);
    assert_eq!((loop_.acquired, loop_.presented), (2, 2));
}

#[test]
fn shared_fault_suppresses_until_outer_rebuild() {
    let mut health = FrameHealth::new(PresentationPolicy::Optimistic);
    health.latch_device_lost("destroyed", "rebuild all");
    let mut loop_ = FakeFrameLoop::default();
    loop_.run(&mut health, 1, None, None);
    assert_eq!((loop_.acquired, loop_.presented), (0, 0));
    assert!(matches!(health.begin_frame(2), FrameDecision::RebuildAll(SharedFault::DeviceLost { .. })));
    assert!(matches!(health.shared_fault(), Some(SharedFault::DeviceLost { .. })));
}

#[test]
fn poll_failure_is_a_shared_rebuild_all_fault() {
    let mut health = FrameHealth::new(PresentationPolicy::Optimistic);
    health.latch_poll_failure("poll failed");
    assert!(matches!(health.begin_frame(1), FrameDecision::RebuildAll(SharedFault::PollFailure { .. })));
}

#[test]
fn a_clean_validation_lets_the_frame_proceed_and_records_nothing() {
    let mut health = FrameHealth::new(PresentationPolicy::AwaitedDiagnostic);
    assert_eq!(health.begin_frame(1), FrameDecision::Proceed);
    assert_eq!(health.finish_validation("paredros-room", "stage", 1, None), FrameDecision::Proceed);
    assert!(health.validations().is_empty());
    assert_eq!(
        health.finish_validation("paredros-room", "stage", 2, Some("copy overrun".to_string())),
        FrameDecision::Suppress
    );
    assert_eq!(health.validations().len(), 1);
    assert_eq!(health.validations()[0].producer_path, "stage");
    assert_eq!(health.validations()[0].error, "copy overrun");
}

#[test]
fn the_latest_shared_fault_is_the_one_latched() {
    let mut health = FrameHealth::new(PresentationPolicy::Optimistic);
    health.latch_uncaptured_error("first");
    health.latch_poll_failure("second");
    assert_eq!(health.shared_fault(), Some(&SharedFault::PollFailure { error: "second".to_string() }));
    assert_eq!(
        health.begin_frame(1),
        FrameDecision::RebuildAll(SharedFault::PollFailure { error: "second".to_string() })
    );
    assert_eq!(health.finish_validation("tenant", "producer", 1, None), FrameDecision::Proceed);
}

/// The chamber's interior is air and every wall about it is rock, so a
/// step lands where asked only while it stays inside.
fn chamber() -> Room {
    Room::carved(SEED, [12, 40, -7])
}

fn land(room: &Room, to: [i32; 3], from: [i32; 3]) -> [i32; 3] {
    let (low, high) = room.interior();
    let inside = (0..3).all(|axis| to[axis] >= low[axis] && to[axis] <= high[axis]);
    if inside {
        to
    } else {
        from
    }
}

fn spent_for(ticks: usize) -> Probe {
    let room = chamber();
    let mut probe = Probe::new(room);
    for _ in 0..ticks {
        let to = probe.toward().expect("the trace is not spent");
        let landed = land(&room, to, probe.at());
        probe.land(landed);
    }
    probe
}

fn resume_run(probe: &mut Probe, ticks: usize) {
    let room = *probe.room();
    for _ in 0..ticks {
        let to = probe.toward().expect("the trace is not spent");
        let landed = land(&room, to, probe.at());
        probe.land(landed);
    }
}

const GROUND_HASH: u64 = 0x5eed_0f_6a0d;

#[test]
fn a_run_visits_more_than_one_voxel_and_stays_in_the_room() {
    let probe = spent_for(TICKS);
    assert_eq!(probe.tick_count(), TICKS);
    assert_eq!(probe.log().len(), TICKS + 1);
    assert!(!probe.running());
    assert_eq!(probe.toward(), None);

    let distinct: BTreeSet<_> = probe.log().iter().collect();
    assert!(distinct.len() > 4, "the trace barely moved: {distinct:?}");

    let (low, high) = probe.room().interior();
    for at in probe.log() {
        for axis in 0..3 {
            assert!(at[axis] >= low[axis] && at[axis] <= high[axis], "the body left the room at {at:?}");
        }
    }
}

#[test]
fn the_trace_ends_pressed_against_walls() {
    let probe = spent_for(TICKS);
    let held = probe.log().windows(2).filter(|pair| pair[0] == pair[1]).count();
    assert!(held > 0, "no tick was refused; the walls did nothing");
}

#[test]
fn the_same_trace_walks_the_same_path_twice() {
    let (a, b) = (spent_for(TICKS), spent_for(TICKS));
    assert_eq!(a.at(), b.at());
    assert_eq!(a.log(), b.log());
    assert_eq!(a.save_of(GROUND_HASH), b.save_of(GROUND_HASH));
}

#[test]
fn a_save_at_half_time_replays_to_the_straight_run() {
    let straight = spent_for(TICKS);

    let split = spent_for(TICKS / 2);
    let saved = split.save_of(GROUND_HASH);

    let mut restored = Probe::resume(chamber(), saved, GROUND_HASH).expect("a fresh probe takes the save");
    assert_eq!(restored.tick_count(), TICKS / 2);
    assert_eq!(restored.at(), split.at());
    resume_run(&mut restored, TICKS - TICKS / 2);

    assert_eq!(restored.tick_count(), TICKS);
    assert_eq!(restored.at(), straight.at(), "the run ended elsewhere");
    assert_eq!(restored.log(), straight.log(), "the run took another route");
}

#[test]
fn a_save_reloads_into_the_same_room() {
    let probe = spent_for(TICKS);
    let restored = Probe::resume(chamber(), probe.save_of(GROUND_HASH), GROUND_HASH).unwrap();
    assert_eq!(restored.room().centre, probe.room().centre);
    assert_eq!(restored.save_of(GROUND_HASH), probe.save_of(GROUND_HASH));
}

#[test]
fn a_save_whose_world_regrew_differently_is_refused() {
    let probe = spent_for(TICKS);
    let save = probe.save_of(GROUND_HASH);
    assert_eq!(save.seed, SEED);
    assert_eq!(save.ground_hash, GROUND_HASH);
    assert!(matches!(
        Probe::resume(chamber(), save, GROUND_HASH ^ 1),
        Err(ProbeError::GroundDiverged)
    ));
}

#[test]
fn the_trace_runs_the_cardinals_then_the_diagonals() {
    assert_eq!(trace_at(0), [1, 0]);
    assert_eq!(trace_at(8), [0, 1]);
    assert_eq!(trace_at(16), [-1, 0]);
    assert_eq!(trace_at(31), [0, -1]);
    assert_eq!(trace_at(32), [1, 1]);
    assert_eq!(trace_at(40), [-1, -1]);
    assert_eq!(trace_at(48), [-1, 1]);
    assert_eq!(trace_at(TICKS - 1), [1, -1]);

    let fresh = Probe::new(chamber());
    assert_eq!(fresh.heading(), [1, 0]);
    assert_eq!(fresh.toward(), Some([13, 36, -7]));
}

#[test]
fn the_same_seed_carves_the_same_room() {
    let a = Room::carved(SEED, [12, 40, -7]);
    let b = Room::carved(SEED, [12, 40, -7]);
    assert_eq!(a, b);
    assert_eq!(a.radius, ROOM_RADIUS);
    assert_eq!(a.stance, [12, 40 - ROOM_RADIUS, -7]);
}

#[test]
fn the_room_has_walls_the_walker_cannot_cross() {
    let room = chamber();
    let (low, high) = room.interior();
    assert_eq!(low, [8, 36, -11]);
    assert_eq!(high, [16, 44, -3]);
    let c = room.centre;
    assert_eq!(land(&room, [high[0] + 1, c[1], c[2]], c), c);
    assert_eq!(land(&room, [low[0] - 1, c[1], c[2]], c), c);
    assert_eq!(land(&room, [c[0], c[1], high[2] + 1], c), c);
    assert_eq!(land(&room, [c[0], c[1], low[2] - 1], c), c);
}

#[test]
fn only_the_bricks_around_the_room_are_meshed() {
    let room = chamber();
    let mut keys = Vec::new();
    for x in -4i16..4 {
        for y in 0i16..6 {
            for z in -4i16..4 {
                keys.push([x, y, z]);
            }
        }
    }
    let near = room.nearby_bricks(&keys, 16, 20);
    assert!(!near.is_empty(), "the room sits in bricks");
    assert!(near.len() < keys.len(), "the whole enclosure is not the room's neighbourhood");
    assert!(near.contains(&[0, 2, -1]));
    assert!(!near.contains(&[-4, 0, -4]));
    // The order of the keys is kept.
    let mut positions = near.iter().map(|key| keys.iter().position(|k| k == key).unwrap());
    let mut last = positions.next().unwrap();
    for next in positions {
        assert!(next > last);
        last = next;
    }
}

#[test]
fn a_chamber_needs_a_hill_tall_enough_to_keep_a_roof_and_a_floor() {
    assert_eq!(chamber_at(3, 4, MIN_HILL - 1, ROOM_RADIUS), None);
    assert_eq!(chamber_at(3, 4, 30, ROOM_RADIUS), Some([3, 30 - ROOF - ROOM_RADIUS, 4]));
    assert_eq!(chamber_at(3, 4, MIN_HILL, ROOM_RADIUS), Some([3, MIN_HILL - ROOF - ROOM_RADIUS, 4]));
}

#[test]
fn the_witnesses_sit_about_the_chamber() {
    let room = chamber();
    let pillars = d1_pillars(&room);
    assert_eq!(pillars[0].min, [15, 36, -9]);
    assert_eq!(pillars[1].min, [14, 35, -11]);
    assert_eq!(pillars[2].min, [16, 33, -11]);
    assert_eq!(pillars[2].extent, [1, 2, 1]);
    assert_eq!(pillars[0].role, "standing before the wall");
}

#[test]
fn a_flat_frame_is_trivial() {
    let flat = Capture { pixels: vec![0; 16], size: [2, 2], distinct: 1 };
    assert!(flat.is_trivial());
    let busy = Capture { pixels: vec![0; 16], size: [2, 2], distinct: 16 };
    assert!(!busy.is_trivial());
}

#[test]
fn a_run_of_the_whole_trace_matches_the_tick_by_tick_walk() {
    let room = chamber();
    let step = |from: [i32; 3], to: [i32; 3]| land(&room, to, from);
    let mut probe = Probe::new(room);
    probe.run(TICKS + 10, &step);
    let ticked = spent_for(TICKS);
    assert_eq!(probe.tick_count(), TICKS);
    assert_eq!(probe.log(), ticked.log());
    assert!(!probe.advance(&step));
    assert_eq!(probe.log().len(), TICKS + 1);

    let mut half = Probe::new(room);
    half.run(TICKS / 2, &step);
    assert_eq!(half.tick_count(), TICKS / 2);
    assert!(half.advance(&step));
    assert_eq!(half.tick_count(), TICKS / 2 + 1);
    assert_eq!(half.log(), &ticked.log()[..TICKS / 2 + 2]);
}

/// The brick keys of a region: columns of four bricks over a square of
/// thirty-two bricks a side.
fn region_keys() -> Vec<[i16; 3]> {
    let mut keys = Vec::new();
    for x in -16i16..16 {
        for z in -16i16..16 {
            for y in 0i16..4 {
                keys.push([x, y, z]);
            }
        }
    }
    keys
}

const BRICK: i32 = 16;

#[test]
fn the_page_is_the_smallest_band_that_covers_the_view() {
    assert_eq!(page_ranges(), [40, 88, 128]);
    assert_eq!(band(0), Ok(PAGE_CLOSE));
    assert_eq!(band(40), Ok(PAGE_CLOSE));
    assert_eq!(band(41), Ok(PAGE_LEADING));
    assert_eq!(band(127), Ok(PAGE_PLANNING));
    assert_eq!(band(129), Err(ResidencyError::VisibleRange { actual: 129, maximum: 128 }));
}

#[test]
fn a_page_selects_whole_columns_about_the_focus() {
    let keys = region_keys();
    let close = selected_keys(&keys, [0, 20, 0], PAGE_CLOSE, BRICK);
    assert_eq!(close.len(), 6 * 6 * 4);
    assert!(close.contains(&[-3, 3, 2]));
    assert!(!close.contains(&[3, 0, 0]));
    let far = selected_keys(&keys, [0, 20, 0], PAGE_PLANNING, BRICK);
    assert_eq!(far.len(), 17 * 17 * 4);
}

#[test]
fn one_budget_pages_a_region_that_cannot_be_wholly_resident() {
    let keys = region_keys();
    let focus = [0, 20, 0];
    let mut policy = ResidencyPolicy::default();
    assert_eq!(policy.current_range(), None);

    let close = policy.plan(&keys, focus, BRICK, PAGE_CLOSE).unwrap().expect("initial page");
    assert_eq!(close.projection_revision, 0);
    assert_eq!(close.loaded_bricks, close.keys.len());
    assert_eq!(close.evicted_bricks, 0);
    let close = policy.commit(close, 4096, 8192).unwrap();
    assert_eq!(close.resident_bytes, 4096 + 8192);
    assert_eq!(policy.current_range(), Some(PAGE_CLOSE));
    assert!(policy.plan(&keys, focus, BRICK, PAGE_CLOSE).unwrap().is_none());
    assert!(matches!(
        policy.plan(&keys, focus, BRICK, PAGE_PLANNING + 1),
        Err(ResidencyError::VisibleRange { .. })
    ));

    // The whole region's map does not fit; the policy refuses it and keeps
    // what is resident.
    let far = policy.plan(&keys, focus, BRICK, PAGE_PLANNING).unwrap().expect("far page");
    assert_eq!(
        policy.commit(far.clone(), RESIDENT_BUDGET_BYTES, 1),
        Err(ResidencyError::Budget { actual: RESIDENT_BUDGET_BYTES + 1, maximum: RESIDENT_BUDGET_BYTES })
    );
    assert_eq!(policy.current_range(), Some(PAGE_CLOSE));
    assert_eq!(policy.projection_revision(), 0);

    let far = policy.commit(far, 65536, 262144).unwrap();
    assert!(far.loaded_bricks > 0);
    assert!(far.resident_bricks > close.resident_bricks);
    assert!(far.resident_bytes <= RESIDENT_BUDGET_BYTES);
    assert_eq!(far.projection_revision, 1);

    let recovered = policy.plan(&keys, focus, BRICK, PAGE_CLOSE).unwrap().expect("rapid close recovery");
    assert!(recovered.evicted_bricks > 0);
    assert_eq!(recovered.loaded_bricks, 0);
    assert_eq!(recovered.projection_revision, 2);
}

#[test]
fn travel_within_one_page_band_advances_projection_identity() {
    let keys = region_keys();
    let surface = |_x: i32, _z: i32| Some(19);
    let stands = |_at: [i32; 3]| true;
    let mut focus = focus_stance(&surface, &stands).expect("the region has a stance");
    assert_eq!(focus, [0, 20, 0]);
    let mut policy = ResidencyPolicy::new();
    let first = policy.plan(&keys, focus, BRICK, PAGE_PLANNING).unwrap().expect("initial page");
    let first = policy.commit(first, 65536, 262144).unwrap();

    focus = moved_focus(focus, BRICK, &surface, &stands).expect("the focus moves a brick east");
    assert_eq!(focus, [16, 20, 0]);
    let travelled = policy.plan(&keys, focus, BRICK, PAGE_PLANNING).unwrap().expect("same-band travel page");
    let travelled = policy.commit(travelled, 65536, 262144).unwrap();

    assert_eq!(first.resident_range, travelled.resident_range);
    assert!(travelled.loaded_bricks > 0);
    assert!(travelled.evicted_bricks > 0);
    assert_eq!(travelled.projection_revision, first.projection_revision + 1);
    assert_eq!(policy.projection_revision(), travelled.projection_revision);
    assert!(policy.plan(&keys, focus, BRICK, PAGE_PLANNING).unwrap().is_none());
}

#[test]
fn the_focus_is_the_first_standable_column_of_the_scan() {
    let surface = |x: i32, _z: i32| if x < -40 { None } else { Some(7) };
    let stands = |at: [i32; 3]| at[0] >= 3;
    assert_eq!(focus_stance(&surface, &stands), Some([3, 8, -3]));
    assert_eq!(moved_focus([3, 8, -3], -1, &surface, &stands), None);
    assert_eq!(moved_focus([3, 8, -3], 5, &surface, &stands), Some([8, 8, -3]));
    let nowhere = |_at: [i32; 3]| false;
    assert_eq!(focus_stance(&surface, &nowhere), None);
}

/// A hill twenty high whose middle sinks to eight.
fn hill(x: i32, z: i32) -> Option<i32> {
    if x.abs() > 60 || z.abs() > 60 {
        None
    } else if x.abs() <= 3 && z.abs() <= 3 {
        Some(8)
    } else {
        Some(20)
    }
}

#[test]
fn the_thinnest_column_decides_the_depth() {
    assert_eq!(thinnest(&hill, [0, 0], 5), Some(8));
    assert_eq!(thinnest(&hill, [20, 20], 5), Some(20));
    assert_eq!(thinnest(&hill, [58, 0], 5), None);
}

#[test]
fn a_cube_is_buried_only_when_every_voxel_is_rock() {
    let rock = |p: [i32; 3]| p[1] <= 20;
    assert!(buried(&rock, [0, 14, 0], 5));
    assert!(!buried(&rock, [0, 16, 0], 5));
}

#[test]
fn the_hunt_takes_the_first_column_whose_footprint_holds_a_roof() {
    let rock = |p: [i32; 3]| {
        let top = hill(p[0], p[2]).unwrap_or(i32::MIN);
        p[1] <= top
    };
    assert_eq!(column_site(&hill, &rock, 0, 0, ROOM_RADIUS), None);
    assert_eq!(column_site(&hill, &rock, 20, 20, ROOM_RADIUS), Some([20, 14, 20]));
    assert_eq!(hillside(&hill, &rock, ROOM_RADIUS), Some([-9, 14, -9]));

    let open = |_p: [i32; 3]| false;
    assert_eq!(hillside(&hill, &open, ROOM_RADIUS), None);
}

#[test]
fn a_capture_counts_its_distinct_colours_over_whole_pixels() {
    let pixels = vec![
        10, 20, 30, 255, //
        10, 20, 30, 0, // the same colour, another alpha
        10, 20, 31, 255, //
        0, 0, 0, 255, //
        9, 9, // a trailing partial pixel
    ];
    let capture = Capture::of(pixels, [2, 2]);
    assert_eq!(capture.distinct, 3);
    assert_eq!(capture.size, [2, 2]);
    assert!(capture.is_trivial());
    assert_eq!(Capture::of(Vec::new(), [0, 0]).distinct, 0);
}

#[test]
fn only_a_cyan_dominant_pixel_is_a_witness() {
    assert!(is_cyan(&[26, 217, 242, 255]));
    assert!(!is_cyan(&[200, 217, 242, 255]));
    assert!(!is_cyan(&[0, 50, 242, 255]));
    assert!(!is_cyan(&[26, 217, 30, 255]));
}

#[test]
fn the_window_counts_witness_pixels_about_a_probe() {
    // A four-by-four image, all black but for a cyan column at x = 1.
    let mut pixels = vec![0u8; 4 * 4 * 4];
    for y in 0..4usize {
        let at = (y * 4 + 1) * 4;
        pixels[at..at + 4].copy_from_slice(&[26, 217, 242, 255]);
    }
    let capture = Capture::of(pixels, [4, 4]);
    assert_eq!(cyan_at(&capture, [1, 1]), 3);
    assert_eq!(cyan_at(&capture, [2, 2]), 3);
    assert_eq!(cyan_at(&capture, [2, 1]), 3);
    let dark = Capture::of(vec![0u8; 64], [4, 4]);
    assert_eq!(cyan_at(&dark, [1, 1]), 0);
}

#[test]
fn the_median_is_the_middle_sample_once_sorted() {
    assert_eq!(median(&[7]), 7);
    assert_eq!(median(&[5, 1, 9]), 5);
    assert_eq!(median(&[4, 1, 3, 2]), 3);
    assert_eq!(median(&[2, 2, 9, 2, 9]), 2);
    assert_eq!(median(&[16_000, 15_500, 33_000, 16_100, 15_900, 16_050]), 16_050);
}

#[test]
fn an_awaited_headed_receipt_needs_the_injected_frame_suppressed_and_a_later_one_presented() {
    let mut health = FrameHealth::new(PresentationPolicy::AwaitedDiagnostic);
    let mut probe = HeadedValidationProbe::new(PresentationPolicy::AwaitedDiagnostic);
    probe.surface_acquire_attempts.push(1);
    probe.surface_present_attempts.push(1);
    assert!(probe.inject_once(2));
    assert!(!probe.inject_once(3));
    assert_eq!(probe.injected_attempt, Some(2));
    health.finish_validation("paredros-room", "stage", 2, Some("bad copy".to_string()));
    probe.record_suppressed(2);
    assert!(probe.completed_record(&health).is_none(), "no healthy frame has presented yet");
    probe.surface_acquire_attempts.push(3);
    probe.surface_present_attempts.push(3);
    let record = probe.completed_record(&health).expect("the story is complete");
    assert_eq!(record.frame, 2);
    assert_eq!(record.producer_path, "stage");

    // A suppressed frame that reached the surface spoils the story.
    probe.surface_acquire_attempts.push(2);
    assert!(probe.completed_record(&health).is_none());
}

#[test]
fn an_optimistic_headed_receipt_suppresses_the_frame_after_the_injected_one() {
    let mut health = FrameHealth::new(PresentationPolicy::Optimistic);
    let mut probe = HeadedValidationProbe::new(PresentationPolicy::Optimistic);
    assert!(probe.inject_once(1));
    probe.surface_acquire_attempts.push(1);
    probe.surface_present_attempts.push(1);
    health.finish_validation("tenant", "producer", 1, Some("bad copy".to_string()));
    probe.record_suppressed(2);
    probe.surface_acquire_attempts.push(3);
    probe.surface_present_attempts.push(3);
    assert_eq!(probe.completed_record(&health).map(|record| record.frame), Some(1));

    let mut awaited = HeadedValidationProbe::new(PresentationPolicy::AwaitedDiagnostic);
    awaited.inject_once(1);
    awaited.record_suppressed(2);
    awaited.surface_present_attempts.push(3);
    assert!(awaited.completed_record(&health).is_none(), "awaited must suppress the injected frame itself");
}

#[test]
fn a_rebuild_receipt_needs_a_later_generation_current_and_a_later_frame_presented() {
    let mut probe = RebuildProbe::new();
    assert!(!probe.complete(1));
    assert!(probe.inject_once(4, 1));
    assert!(!probe.inject_once(5, 1));
    probe.record_rebuild(4, 2);
    assert!(!probe.complete(2), "nothing has presented since");
    probe.surface_acquire_attempts.push(5);
    probe.surface_present_attempts.push(5);
    assert!(probe.complete(2));
    assert!(!probe.complete(3), "the rebuilt generation is no longer current");
    probe.record_rebuild(6, 3);
    assert!(!probe.complete(3), "a second suppression is not the one fault");
}

#[test]
fn a_policy_setting_is_read_without_regard_to_case() {
    assert_eq!(PresentationPolicy::named(""), Some(PresentationPolicy::Optimistic));
    assert_eq!(PresentationPolicy::named("Awaited"), Some(PresentationPolicy::AwaitedDiagnostic));
    assert_eq!(PresentationPolicy::named("AWAITED-DIAGNOSTIC"), Some(PresentationPolicy::AwaitedDiagnostic));
    assert_eq!(PresentationPolicy::named("awaiteddiagnostic"), Some(PresentationPolicy::AwaitedDiagnostic));
    assert_eq!(PresentationPolicy::named("Optimistic"), Some(PresentationPolicy::Optimistic));
    assert_eq!(PresentationPolicy::named("eager"), None);

    assert_eq!(HeadedValidationProbe::policy_named("awaited"), Some(PresentationPolicy::AwaitedDiagnostic));
    assert_eq!(HeadedValidationProbe::policy_named("OPTIMISTIC"), Some(PresentationPolicy::Optimistic));
    assert_eq!(HeadedValidationProbe::policy_named(""), None);
    assert_eq!(HeadedValidationProbe::policy_named("awaiteddiagnostic"), None);

    assert_eq!(RebuildProbe::requested(""), Some(false));
    assert_eq!(RebuildProbe::requested("False"), Some(false));
    assert_eq!(RebuildProbe::requested("0"), Some(false));
    assert_eq!(RebuildProbe::requested("TRUE"), Some(true));
    assert_eq!(RebuildProbe::requested("1"), Some(true));
    assert_eq!(RebuildProbe::requested("yes"), None);
}

#[test]
fn the_room_is_a_roofed_chamber_with_a_floor_to_stand_on() {
    let rock = |p: [i32; 3]| p[1] <= hill(p[0], p[2]).unwrap_or(i32::MIN);
    let centre = hillside(&hill, &rock, ROOM_RADIUS).expect("this hill has a hillside");
    let room = Room::carved(SEED, centre);
    let carved = |p: [i32; 3]| {
        let (low, high) = room.interior();
        (0..3).all(|axis| p[axis] >= low[axis] && p[axis] <= high[axis])
    };
    let solid = |p: [i32; 3]| rock(p) && !carved(p);

    let (low, high) = room.interior();
    for y in low[1]..=high[1] {
        for z in low[2]..=high[2] {
            for x in low[0]..=high[0] {
                assert!(!solid([x, y, z]), "rock left inside at {x},{y},{z}");
            }
        }
    }
    let c = room.centre;
    assert!(solid([c[0], high[1] + 1, c[2]]), "no roof");
    assert!(solid([c[0], low[1] - 1, c[2]]), "no floor");
    let stance = room.stance;
    assert!(solid([stance[0], stance[1] - 1, stance[2]]));
    assert!(!solid(stance) && !solid([stance[0], stance[1] + 1, stance[2]]));
    for y in low[1]..=high[1] {
        assert!(solid([high[0] + 1, y, c[2]]), "east wall");
        assert!(solid([low[0] - 1, y, c[2]]), "west wall");
        assert!(solid([c[0], y, high[2] + 1]), "north wall");
        assert!(solid([c[0], y, low[2] - 1]), "south wall");
    }
}
