use raftscope::util::{clamp, greatest_lower, random, RandomSource, RANDOM_RANGE};

#[test]
fn greatest_lower_of_sorted_numbers() {
    let a: Vec<u64> = vec![1, 3, 3, 5];
    assert_eq!(greatest_lower(&a, |x: &u64| *x > 3), 2);
    assert_eq!(greatest_lower(&a, |x: &u64| *x > 0), -1);
    assert_eq!(greatest_lower(&a, |x: &u64| *x > 9), 3);
}

#[test]
fn greatest_lower_of_nothing() {
    let a: Vec<u64> = vec![];
    assert_eq!(greatest_lower(&a, |x: &u64| *x > 3), -1);
}

#[test]
fn greatest_lower_bisects_unsorted_numbers() {
    let a: Vec<u64> = vec![0, 9, 0, 9, 0];
    assert_eq!(greatest_lower(&a, |x: &u64| *x > 5), 2);
    let b: Vec<u64> = vec![0, 0, 9, 0, 0];
    assert_eq!(greatest_lower(&b, |x: &u64| *x > 5), 1);
}

#[test]
fn clamp_moves_values_into_the_range() {
    assert_eq!(clamp(-5, 0, 10), 0);
    assert_eq!(clamp(15, 0, 10), 10);
    assert_eq!(clamp(7, 0, 10), 7);
    assert_eq!(clamp(0, 0, 10), 0);
    assert_eq!(clamp(10, 0, 10), 10);
    assert_eq!(clamp(5, 10, 0), 10);
}

#[test]
fn generator_draws() {
    let mut rng = RandomSource::new();
    assert_eq!(random(&mut rng), 7744336963927657);
    assert_eq!(random(&mut rng), 3551550720986572);
    assert_eq!(random(&mut rng), 4328750740976140);
    assert_eq!(rng.seed, 0x7b07ce91e5906136);
}

#[test]
fn words_that_were_fed_are_drawn_first() {
    let mut rng = RandomSource::new();
    rng.feed(1 << 11);
    rng.feed(u64::MAX);
    assert_eq!(random(&mut rng), RANDOM_RANGE - 1);
    assert_eq!(random(&mut rng), 1);
    assert_eq!(random(&mut rng), 7744336963927657);
}
