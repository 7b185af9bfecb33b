use ducky_core::animation::{Animation, AnimationPlayerState, Frame, FrameTimer};

const MS: u64 = 1_000_000;

fn two_frames() -> Animation {
    Animation {
        frames: vec![
            Frame { index: 0, duration: 100 * MS, markers: vec![] },
            Frame { index: 1, duration: 100 * MS, markers: vec![7] },
        ],
    }
}

fn run(animation: &Animation, deltas: &[u64]) -> Vec<(usize, usize, Vec<usize>)> {
    let mut state = AnimationPlayerState::init(animation);
    deltas
        .iter()
        .map(|&d| {
            let markers = state.update(animation, false, d);
            (state.frame_index, state.atlas_index, markers)
        })
        .collect()
}

#[test]
fn markers_are_reported_on_entering_their_frame() {
    let trace = run(&two_frames(), &[80 * MS, 40 * MS, 100 * MS]);
    assert_eq!(trace, vec![(0, 0, vec![]), (1, 1, vec![7]), (0, 0, vec![])]);
}

#[test]
fn playback_is_repeatable() {
    let deltas = [30 * MS, 90 * MS, 5 * MS, 200 * MS, 100 * MS, 1, 99 * MS];
    let animation = two_frames().with_marker(3, &[0, 0]);
    assert_eq!(run(&animation, &deltas), run(&animation, &deltas));
    assert_eq!(run(&animation, &deltas), run(&two_frames().with_marker(3, &[0, 0]), &deltas));
}

#[test]
fn empty_animation_plays_nothing() {
    let animation = Animation { frames: vec![] };
    let mut state = AnimationPlayerState::init(&animation);
    assert_eq!(state, AnimationPlayerState::default());
    for delta in [0, 10 * MS, 1_000 * MS, u64::MAX] {
        assert!(state.update(&animation, false, delta).is_empty());
        assert_eq!(state, AnimationPlayerState::default());
    }
}

#[test]
fn rebinding_restarts_without_markers() {
    let animation = two_frames();
    let mut state = AnimationPlayerState::init(&animation);
    assert_eq!(state.update(&animation, false, 150 * MS), vec![7]);
    assert_eq!(state.frame_index, 1);
    let other = Animation::from_frame_range_and_millis(4..6, 50);
    assert!(state.update(&other, true, 500 * MS).is_empty());
    assert_eq!((state.frame_index, state.atlas_index), (0, 4));
    assert_eq!(state.timer, FrameTimer { duration: 50 * MS, elapsed: 0, finished: false });
}

#[test]
fn timer_saturates_and_stays_finished() {
    let mut timer = FrameTimer::new(10);
    assert!(!timer.tick(4));
    assert_eq!(timer.elapsed, 4);
    assert!(timer.tick(u64::MAX));
    assert_eq!(timer.elapsed, 10);
    assert!(timer.tick(0));
    let mut zero = FrameTimer::new(0);
    assert!(zero.tick(0));
}

#[test]
fn frames_from_a_range() {
    let animation = Animation::from_frame_range_and_millis(3..6, 120);
    let indices: Vec<usize> = animation.frames.iter().map(|f| f.index).collect();
    assert_eq!(indices, vec![3, 4, 5]);
    assert!(animation.frames.iter().all(|f| f.duration == 120 * MS && f.markers.is_empty()));
    assert!(Animation::from_frame_range_and_millis(6..3, 120).frames.is_empty());
}

#[test]
fn markers_are_added_per_listed_frame() {
    let animation = Animation::from_frame_range_and_millis(0..3, 10).with_marker(9, &[2, 0, 2]);
    assert_eq!(animation.frames[0].markers, vec![9]);
    assert!(animation.frames[1].markers.is_empty());
    assert_eq!(animation.frames[2].markers, vec![9, 9]);
}

#[test]
fn next_frame_wraps_around() {
    let animation = Animation::from_frame_range_and_millis(10..13, 10).with_marker(1, &[0]);
    let mut state = AnimationPlayerState::init(&animation);
    assert!(state.go_to_next_frame(&animation).is_empty());
    assert!(state.go_to_next_frame(&animation).is_empty());
    assert_eq!(state.go_to_next_frame(&animation), &[1]);
    assert_eq!((state.frame_index, state.atlas_index), (0, 10));
}
