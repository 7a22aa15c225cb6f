use openscad_rs::lists::resolve_index;
use openscad_rs::rng::{lcg_draws, lcg_next, LCG_MUL};

#[test]
fn non_negative_indices_select_themselves() {
    assert_eq!(resolve_index(0, 3), Some(0));
    assert_eq!(resolve_index(2, 3), Some(2));
    assert_eq!(resolve_index(3, 3), None);
    assert_eq!(resolve_index(0, 0), None);
}

#[test]
fn negative_indices_count_from_the_end() {
    assert_eq!(resolve_index(-1, 3), Some(2));
    assert_eq!(resolve_index(-3, 3), Some(0));
    assert_eq!(resolve_index(-4, 3), None);
    assert_eq!(resolve_index(i64::MIN, 3), None);
    assert_eq!(resolve_index(-2, 5), resolve_index(3, 5));
}

#[test]
fn generator_step() {
    assert_eq!(lcg_next(0), 1);
    assert_eq!(lcg_next(1), LCG_MUL + 1);
    assert_eq!(lcg_next(u64::MAX), 1u64.wrapping_sub(LCG_MUL));
}

#[test]
fn draws_are_the_high_bits_of_successive_states() {
    assert_eq!(lcg_draws(1, 3), vec![740882966, 1616430695, 1708849955]);
    assert_eq!(lcg_draws(42, 2), vec![1052313527, 1006665568]);
    assert!(lcg_draws(7, 0).is_empty());
    assert!(lcg_draws(7, 50).iter().all(|d| *d < 0x8000_0000));
}
