use paredros::room::zoom::{
    recovery, stable_frame, summarize, travel_proved, FrameSample, Recovery, TraceSummary,
    TracerReport,
};

fn sample(frame: u64, resident_range: i32, page_transition: bool, frame_us: u64) -> FrameSample {
    FrameSample {
        frame,
        resident_range,
        resident_bytes: 0,
        page_transition,
        brick_upload_bytes: 0,
        resource_creations: 0,
        bind_group_rebuilds: 0,
        projection_replaced: false,
        frame_us,
    }
}

/// A near page settling, then a rapid zoom to a far page at frame 4.
fn trace() -> Vec<FrameSample> {
    let mut samples = vec![
        sample(0, 4, true, 900),
        sample(1, 4, false, 100),
        sample(2, 4, false, 120),
        sample(3, 4, false, 110),
        sample(4, 2, true, 800),
        sample(5, 2, false, 300),
        sample(6, 2, false, 140),
        sample(7, 2, false, 130),
        sample(8, 2, false, 125),
    ];
    samples[0].brick_upload_bytes = 4096;
    samples[4].brick_upload_bytes = 1536;
    samples[0].resident_bytes = 70_000;
    samples[4].resident_bytes = 90_000;
    for later in samples.iter_mut().skip(5) {
        later.resident_bytes = 90_000;
    }
    samples
}

#[test]
fn a_rapid_zoom_recovers_at_the_first_frame_back_under_the_threshold() {
    // Steady frames at range 2: 300, 140, 130, 125; their median is 140,
    // the threshold 175, and frame 6 is the first back under it.
    assert_eq!(
        recovery(&trace(), 4),
        Some(Recovery {
            event_frame: 4,
            resident_range: 2,
            steady_median_us: 140,
            threshold_us: 175,
            event_frame_us: 800,
            recovered_at_frame: Some(6),
            recovery_frames: Some(2),
        })
    );
}

#[test]
fn a_zoom_with_no_later_frame_under_the_threshold_has_not_recovered() {
    let r = recovery(&trace(), 8).expect("frame 8 is in the trace");
    assert_eq!(r.steady_median_us, 140);
    assert_eq!(r.threshold_us, 175);
    assert_eq!(r.recovered_at_frame, None);
    assert_eq!(r.recovery_frames, None);
}

#[test]
fn a_recovery_only_counts_frames_at_the_event_range() {
    // Frame 0 at range 4: steady 100, 120, 110, median 110, threshold 137;
    // the first later range-4 frame under it is frame 1.
    let r = recovery(&trace(), 0).expect("frame 0 is in the trace");
    assert_eq!(r.resident_range, 4);
    assert_eq!(r.steady_median_us, 110);
    assert_eq!(r.threshold_us, 137);
    assert_eq!(r.recovered_at_frame, Some(1));
    assert_eq!(r.recovery_frames, Some(1));
}

#[test]
fn no_recovery_is_measured_for_a_missing_frame_or_a_range_without_steady_frames() {
    assert_eq!(recovery(&trace(), 48), None);
    let mut samples = trace();
    samples.push(sample(9, 7, true, 500));
    assert_eq!(recovery(&samples, 9), None);
    let huge = vec![sample(0, 1, true, 1), sample(1, 1, false, u64::MAX)];
    assert_eq!(recovery(&huge, 0), None);
}

#[test]
fn the_trace_summary_counts_pages_bytes_and_times() {
    assert_eq!(
        summarize(&trace()),
        Some(TraceSummary {
            frames: 9,
            page_transitions: 2,
            total_brick_upload_bytes: 5632,
            maximum_resident_bytes: 90_000,
            frame_us_min: 100,
            frame_us_median: 130,
            frame_us_max: 900,
            steady_frame_us_median: 125,
        })
    );
}

#[test]
fn a_trace_without_frames_steady_frames_or_countable_uploads_has_no_summary() {
    assert_eq!(summarize(&Vec::new()), None);
    assert_eq!(summarize(&vec![sample(0, 1, true, 10), sample(1, 1, true, 12)]), None);
    let mut flood = vec![sample(0, 1, true, 10), sample(1, 1, false, 12)];
    flood[0].brick_upload_bytes = u64::MAX / 2 + 1;
    flood[1].brick_upload_bytes = u64::MAX / 2 + 1;
    assert_eq!(summarize(&flood), None);
}

#[test]
fn the_travel_frame_proves_an_equal_extent_republish() {
    let mut samples = trace();
    let mut travel = sample(72, 2, true, 400);
    travel.projection_replaced = true;
    travel.brick_upload_bytes = 2048;
    samples.push(travel);
    assert_eq!(travel_proved(&samples, 72), Some(true));
    samples[9].resource_creations = 1;
    assert_eq!(travel_proved(&samples, 72), Some(false));
    assert_eq!(travel_proved(&trace(), 72), None);
}

#[test]
fn a_stable_cache_uploads_pointers_plus_loaded_slots_and_nothing_else() {
    let transition = TracerReport {
        resource_creations: 0,
        bind_group_rebuilds: 0,
        map_recreated: false,
        projection_replaced: true,
        brick_upload_bytes: 4096 + 2 * 512,
    };
    assert!(stable_frame(3, true, 4096, 2, &transition));
    let short = TracerReport { brick_upload_bytes: 5119, ..transition };
    assert!(!stable_frame(3, true, 4096, 2, &short));
    let quiet = TracerReport { brick_upload_bytes: 0, projection_replaced: false, ..transition };
    assert!(stable_frame(3, false, 4096, 0, &quiet));
    let leaky = TracerReport { brick_upload_bytes: 1, ..quiet };
    assert!(!stable_frame(3, false, 4096, 0, &leaky));
    let rebuilt = TracerReport { map_recreated: true, ..transition };
    assert!(!stable_frame(3, true, 4096, 2, &rebuilt));
    // The first frame builds the cache and owes nothing.
    assert!(stable_frame(0, false, 4096, 0, &rebuilt));
}
