use logic_core::services::dice::Dice;
use logic_core::services::planted_gen::weights::{pick_index, weigh_line};
use rand::rngs::StdRng;
use rand::{Rng, SeedableRng};

#[test]
fn counts_are_those_of_the_generator() {
    for seed in 0..50u64 {
        let mut dice = Dice::new(seed);
        let mut rng = StdRng::seed_from_u64(seed);
        for n in 1..40usize {
            assert_eq!(dice.count(0, n), rng.gen_range(0..=n));
            assert_eq!(dice.count(2, n + 2), rng.gen_range(2..=n + 2));
            assert_eq!(dice.index(n), rng.gen_range(0..n));
        }
    }
}

#[test]
fn a_fixed_seed_gives_fixed_draws() {
    let mut dice = Dice::new(7);
    let draws: Vec<usize> = (0..6).map(|_| dice.count(0, 99)).collect();
    assert_eq!(draws, vec![3, 30, 14, 54, 27, 95]);
    let mut dice = Dice::new(7);
    let draws: Vec<u32> = (0..8).map(|_| dice.quarter()).collect();
    assert_eq!(draws, vec![0, 1, 0, 2, 2, 1, 2, 1]);
    let mut dice = Dice::new(7);
    let draws: Vec<bool> = (0..8).map(|_| dice.coin()).collect();
    assert_eq!(draws, vec![true, true, true, false, true, false, true, true]);
    let mut dice = Dice::new(7);
    let draws: Vec<u64> = (0..3).map(|_| dice.unit()).collect();
    assert_eq!(draws, vec![273074510189855, 2765987342749643, 1284806327529847]);
}

#[test]
fn different_seeds_give_different_draws() {
    let mut a = Dice::new(1);
    let mut b = Dice::new(2);
    let x: Vec<u64> = (0..4).map(|_| a.unit()).collect();
    let y: Vec<u64> = (0..4).map(|_| b.unit()).collect();
    assert_ne!(x, y);
}

#[test]
fn quarters_are_those_of_the_generator() {
    for seed in 0..50u64 {
        let mut dice = Dice::new(seed);
        let mut rng = StdRng::seed_from_u64(seed);
        for _ in 0..20 {
            let n: i32 = rng.gen_range(0..4);
            assert_eq!(dice.quarter() as i32, n);
        }
    }
}

#[test]
fn passes_are_those_of_the_generator() {
    for seed in 0..50u64 {
        let mut dice = Dice::new(seed);
        let mut rng = StdRng::seed_from_u64(seed);
        for most in 1..=200u8 {
            assert_eq!(dice.passes(most), rng.gen_range(1..=most));
        }
    }
}

#[test]
fn coins_are_even_chances_of_the_generator() {
    for seed in 0..50u64 {
        let mut dice = Dice::new(seed);
        let mut rng = StdRng::seed_from_u64(seed);
        for _ in 0..40 {
            assert_eq!(dice.coin(), rng.gen_bool(0.5));
        }
    }
}

#[test]
fn units_are_fractions_of_the_generator() {
    for seed in 0..50u64 {
        let mut dice = Dice::new(seed);
        let mut rng = StdRng::seed_from_u64(seed);
        for _ in 0..40 {
            let fraction = dice.unit() as f64 / (1u64 << 53) as f64;
            assert_eq!(fraction, rng.gen::<f64>());
        }
    }
}

#[test]
fn draws_of_different_kinds_share_one_stream() {
    for seed in 0..50u64 {
        let mut dice = Dice::new(seed);
        let mut rng = StdRng::seed_from_u64(seed);
        for n in 1..20usize {
            assert_eq!(dice.coin(), rng.gen_bool(0.5));
            assert_eq!(dice.index(n), rng.gen_range(0..n));
            let q: i32 = rng.gen_range(0..4);
            assert_eq!(dice.quarter() as i32, q);
            assert_eq!(dice.unit() as f64 / (1u64 << 53) as f64, rng.gen::<f64>());
            assert_eq!(dice.passes(3), rng.gen_range(1..=3u8));
        }
    }
}

#[test]
fn recent_and_unused_lines_weigh_most() {
    let one = 1u128 << 40;
    assert_eq!(weigh_line(4, 4, 0), one / 10 + one);
    assert_eq!(weigh_line(2, 4, 0), one / 10 + one / 2);
    assert_eq!(weigh_line(4, 4, 1), one / 10 + one / 2);
    assert!(weigh_line(3, 7, 0) > weigh_line(2, 7, 0));
    assert!(weigh_line(3, 7, 0) > weigh_line(3, 7, 1));
}

#[test]
fn a_weighted_pick_takes_the_first_share_that_is_reached() {
    let half = 1u64 << 52;
    let weights: Vec<u128> = vec![1, 1, 2];
    assert_eq!(pick_index(&weights, 0), 0);
    assert_eq!(pick_index(&weights, half / 2), 0);
    assert_eq!(pick_index(&weights, half / 2 + 1), 1);
    assert_eq!(pick_index(&weights, half), 1);
    assert_eq!(pick_index(&weights, half + 1), 2);
    assert_eq!(pick_index(&weights, 2 * half - 1), 2);
}
