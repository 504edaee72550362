use substratum::{Generator, Shape};

#[test]
fn deterministic_from_seed() {
    let mut rng1 = Generator::from_seed(12345);
    let mut rng2 = Generator::from_seed(12345);

    for _ in 0..100 {
        assert_eq!(rng1.next_u64(), rng2.next_u64());
    }
}

#[test]
fn different_seeds_differ() {
    let mut rng1 = Generator::from_seed(11111);
    let mut rng2 = Generator::from_seed(22222);

    assert_ne!(rng1.next_u64(), rng2.next_u64());
}

#[test]
fn randint_in_range() {
    let mut rng = Generator::from_seed(42);
    let arr = rng.randint(-10, 10, Shape::d1(1000));

    for &val in arr.as_slice() {
        assert!(val >= -10 && val < 10);
    }
}

#[test]
fn randint_deterministic() {
    let mut rng1 = Generator::from_seed(7);
    let mut rng2 = Generator::from_seed(7);
    let a = rng1.randint(0, 100, Shape::d1(50));
    let b = rng2.randint(0, 100, Shape::d1(50));
    assert_eq!(a.as_slice(), b.as_slice());
}

#[test]
fn generator_new_runs() {
    let mut rng = Generator::new();
    let _ = rng.next_u64();
}
