use ducky_core::controller::{apply_jump_intent, reset_jump_state, step_jump, JumpState};

fn impulses(min: u32, max: u32, inputs: &[(bool, bool)]) -> Vec<bool> {
    let mut state = JumpState::new();
    inputs.iter().map(|&(jump, grounded)| step_jump(min, max, jump, grounded, &mut state).impulse).collect()
}

#[test]
fn released_jump_still_gets_the_minimum_impulse() {
    // Jump held on ticks 0 and 1, released from tick 2; grounded only when it starts.
    let inputs: Vec<(bool, bool)> = (0..12).map(|t| (t < 2, t == 0)).collect();
    let applied = impulses(4, 8, &inputs);
    let ticks: Vec<usize> = applied.iter().enumerate().filter(|(_, &i)| i).map(|(t, _)| t).collect();
    assert_eq!(ticks, vec![0, 1, 2, 3]);
}

#[test]
fn held_jump_gets_the_maximum_impulse() {
    let inputs: Vec<(bool, bool)> = (0..20).map(|t| (true, t == 0)).collect();
    let applied = impulses(4, 8, &inputs);
    assert_eq!(applied.iter().filter(|&&i| i).count(), 8);
    assert!(applied[..8].iter().all(|&i| i));
}

#[test]
fn held_jump_stays_within_bounds_while_grounded() {
    let inputs: Vec<(bool, bool)> = (0..20).map(|_| (true, true)).collect();
    assert_eq!(impulses(2, 5, &inputs).iter().filter(|&&i| i).count(), 5);
}

#[test]
fn maximum_below_minimum_means_exactly_the_minimum() {
    let held: Vec<(bool, bool)> = (0..20).map(|t| (true, t == 0)).collect();
    assert_eq!(impulses(6, 2, &held).iter().filter(|&&i| i).count(), 6);
    let tapped: Vec<(bool, bool)> = (0..20).map(|t| (t == 0, t == 0)).collect();
    assert_eq!(impulses(6, 2, &tapped).iter().filter(|&&i| i).count(), 6);
}

#[test]
fn no_jump_without_ground() {
    let inputs: Vec<(bool, bool)> = (0..10).map(|_| (true, false)).collect();
    assert!(impulses(4, 8, &inputs).iter().all(|&i| !i));
}

#[test]
fn landing_resets_after_the_minimum() {
    let mut state = JumpState { launched: false, ticks: 5 };
    reset_jump_state(4, false, true, &mut state);
    assert_eq!(state, JumpState::new());
    let mut early = JumpState { launched: true, ticks: 3 };
    reset_jump_state(4, false, true, &mut early);
    assert_eq!(early, JumpState { launched: true, ticks: 3 });
    let mut held = JumpState { launched: false, ticks: 5 };
    reset_jump_state(4, true, true, &mut held);
    assert_eq!(held, JumpState { launched: false, ticks: 5 });
}

#[test]
fn jump_starts_by_capturing_the_ground_normal() {
    let mut state = JumpState::default();
    let d = apply_jump_intent(4, 8, true, true, &mut state);
    assert!(d.capture_normal && d.impulse);
    assert_eq!(state, JumpState { launched: true, ticks: 1 });
    let d = apply_jump_intent(4, 8, true, true, &mut state);
    assert!(!d.capture_normal && d.impulse);
    assert_eq!(state.ticks, 2);
}
