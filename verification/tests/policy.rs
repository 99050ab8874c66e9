use mycos::chunk::Action;
use mycos::policy::{
    clamp_commutative, freeze_last_stable, hash_state, parity_quench, CycleDetector, Policy,
};

#[test]
fn cycle_detection_and_freeze_snapshot() {
    let mut det = CycleDetector::new(8);
    let mut state = vec![1u32];
    let stable = vec![0u32];
    assert!(det.observe(&state).is_none());
    state[0] = 3;
    assert!(det.observe(&state).is_none());
    state[0] = 2;
    assert!(det.observe(&state).is_none());
    state[0] = 1;
    let period = det.observe(&state).unwrap();
    let mut final_state = state.clone();
    freeze_last_stable(&mut final_state, &stable);
    assert_eq!(period, 3);
    assert_eq!(final_state, vec![0u32]);
}

#[test]
fn two_cycle_is_reported_with_period_two() {
    let mut det = CycleDetector::new(16);
    let a = vec![0b01u32];
    let b = vec![0b10u32];
    assert_eq!(det.observe(&a), None);
    assert_eq!(det.observe(&b), None);
    assert_eq!(det.observe(&a), Some(2));
    assert_eq!(det.observe(&b), Some(2));
    assert_eq!(det.observe(&a), Some(2));
    assert_eq!(det.observe(&a), Some(1));
}

#[test]
fn ring_forgets_states_older_than_its_window() {
    let mut det = CycleDetector::new(2);
    assert_eq!(det.observe(&[1]), None);
    assert_eq!(det.observe(&[2]), None);
    assert_eq!(det.observe(&[3]), None);
    assert_eq!(det.observe(&[1]), None);
    assert_eq!(det.observe(&[3]), Some(0));
    let mut one = CycleDetector::new(1);
    assert_eq!(one.observe(&[5]), None);
    assert_eq!(one.observe(&[5]), Some(0));
}

#[test]
fn hash_is_stable_and_length_sensitive() {
    assert_eq!(hash_state(&[]), 0);
    assert_eq!(hash_state(&[1, 2, 3]), hash_state(&[1, 2, 3]));
    assert_ne!(hash_state(&[0]), hash_state(&[0, 0]));
    assert_ne!(hash_state(&[1]), hash_state(&[2]));
    assert_ne!(hash_state(&[1, 2]), hash_state(&[2, 1]));
    assert_eq!(hash_state(&[0]), 0x2362_f9de_2362_f9de_2362_f9de_2362_f9de_u128);
    assert_eq!(hash_state(&[1, 2, 3]), 0xe9d7_8ad6_c57d_06bb_dc87_3f11_90fa_19dd_u128);
}

#[test]
fn freeze_copies_as_far_as_both_reach() {
    let mut curr = vec![1u32, 2, 3];
    freeze_last_stable(&mut curr, &[9, 8]);
    assert_eq!(curr, vec![9, 8, 3]);
    let mut curr = vec![1u32];
    freeze_last_stable(&mut curr, &[7, 6, 5]);
    assert_eq!(curr, vec![7]);
    let mut curr: Vec<u32> = vec![];
    freeze_last_stable(&mut curr, &[7]);
    assert!(curr.is_empty());
}

#[test]
fn clamp_follows_disable_enable_toggle_precedence() {
    let disable = Action::Disable;
    let enable = Action::Enable;
    let toggle = Action::Toggle;
    assert_eq!(clamp_commutative(&[]), None);
    assert_eq!(clamp_commutative(&[toggle]), Some(toggle));
    assert_eq!(clamp_commutative(&[toggle, toggle]), None);
    assert_eq!(clamp_commutative(&[toggle, toggle, toggle]), Some(toggle));
    assert_eq!(clamp_commutative(&[toggle, enable, toggle]), Some(enable));
    assert_eq!(clamp_commutative(&[enable, enable]), Some(enable));
    assert_eq!(clamp_commutative(&[enable, toggle, disable, enable]), Some(disable));
    assert_eq!(clamp_commutative(&[disable]), Some(disable));
}

#[test]
fn parity_quench_complements_on_odd_periods_only() {
    let mut curr = vec![0u32, 0xFFFF_0000, 5];
    parity_quench(&mut curr, 2);
    assert_eq!(curr, vec![0, 0xFFFF_0000, 5]);
    parity_quench(&mut curr, 0);
    assert_eq!(curr, vec![0, 0xFFFF_0000, 5]);
    parity_quench(&mut curr, 3);
    assert_eq!(curr, vec![0xFFFF_FFFF, 0x0000_FFFF, 0xFFFF_FFFA]);
    parity_quench(&mut curr, u32::MAX);
    assert_eq!(curr, vec![0, 0xFFFF_0000, 5]);
}

#[test]
fn policies_are_told_apart() {
    assert_ne!(Policy::FreezeLastStable, Policy::ClampCommutative);
    assert_ne!(Policy::ClampCommutative, Policy::ParityQuench);
    assert_eq!(Policy::ParityQuench, Policy::ParityQuench);
}
