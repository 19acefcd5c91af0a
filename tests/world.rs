use reversible_world::cadence::is_pow2;
use reversible_world::world::{sumbools, ConfigError, World};

#[test]
fn sumbools_counts_true_cells() {
    assert_eq!(sumbools(&vec![]), 0);
    assert_eq!(sumbools(&vec![true, false, true, true]), 3);
    assert_eq!(sumbools(&vec![false; 10]), 0);
}

#[test]
fn new_world_starts_at_tick_zero() {
    let w = World::new(vec![false, true], vec![true, false], vec![false]).unwrap();
    assert_eq!(w.t, 0);
    assert_eq!(w.battery, vec![false, true]);
    assert_eq!(w.hot_bath, vec![true, false]);
    assert_eq!(w.cold_bath, vec![false]);
}

#[test]
fn new_world_rejects_short_slots() {
    assert_eq!(
        World::new(vec![false], vec![true, true], vec![false]),
        Err(ConfigError::BatteryTooShort)
    );
    assert_eq!(
        World::new(vec![false, false], vec![true], vec![false]),
        Err(ConfigError::HotBathTooShort)
    );
    assert_eq!(
        World::new(vec![false, false], vec![true, true], vec![]),
        Err(ConfigError::ColdBathTooShort)
    );
}

#[test]
fn is_pow2_finds_powers_of_two() {
    assert!(is_pow2(1));
    assert!(is_pow2(2));
    assert!(is_pow2(1024));
    assert!(is_pow2(1 << 63));
    assert!(!is_pow2(3));
    assert!(!is_pow2(12));
    assert!(!is_pow2(u64::MAX));
}
