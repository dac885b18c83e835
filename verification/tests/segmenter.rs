use stq8_core::segmenter::{regions_from_activity, SyllableBounds, WINDOW_SIZE};

fn activity(pattern: &str) -> Vec<bool> {
    pattern.chars().map(|c| c == '#').collect()
}

#[test]
fn silence_gives_no_regions() {
    assert!(regions_from_activity(&activity("..........."), WINDOW_SIZE, 400, 800).is_empty());
    assert!(regions_from_activity(&[], WINDOW_SIZE, 400, 800).is_empty());
}

#[test]
fn one_run_gives_one_region() {
    // frames 10..20 active -> samples 1600..3200
    let a = activity("..........##########..........");
    assert_eq!(
        regions_from_activity(&a, WINDOW_SIZE, 400, 800),
        vec![SyllableBounds { start: 1600, end: 3200 }]
    );
}

#[test]
fn runs_with_a_short_gap_are_merged() {
    // gap of one frame (160 samples) < 400
    let a = activity("..##########.##########..");
    assert_eq!(
        regions_from_activity(&a, WINDOW_SIZE, 400, 800),
        vec![SyllableBounds { start: 320, end: 3680 }]
    );
}

#[test]
fn runs_with_a_long_gap_stay_apart() {
    let a = activity("..##########..........##########..");
    assert_eq!(
        regions_from_activity(&a, WINDOW_SIZE, 400, 800),
        vec![
            SyllableBounds { start: 320, end: 1920 },
            SyllableBounds { start: 3520, end: 5120 }
        ]
    );
}

#[test]
fn short_runs_are_dropped() {
    // two active frames = 320 samples < 800
    let a = activity("....##....");
    assert!(regions_from_activity(&a, WINDOW_SIZE, 400, 800).is_empty());
    assert_eq!(
        regions_from_activity(&a, WINDOW_SIZE, 400, 0),
        vec![SyllableBounds { start: 640, end: 960 }]
    );
}

#[test]
fn run_reaching_the_last_frame_is_closed() {
    let a = activity(".##");
    assert_eq!(
        regions_from_activity(&a, WINDOW_SIZE, 400, 0),
        vec![SyllableBounds { start: 160, end: 480 }]
    );
}

#[test]
fn regions_are_ordered_spaced_and_long_enough() {
    let a = activity("#.##...###....#####.#.######......##########.#");
    let r = regions_from_activity(&a, WINDOW_SIZE, 400, 480);
    for b in &r {
        assert!(b.start < b.end);
        assert!(b.end - b.start >= 480);
        assert!(b.end <= a.len() * WINDOW_SIZE);
    }
    for w in r.windows(2) {
        assert!(w[0].end + 400 <= w[1].start);
    }
}
