use lib::engine::rng::{Rng, DEFAULT_SEED};

#[test]
fn rng_new_draws_xorshift_sequence() {
    let mut r = Rng::new();
    assert_eq!(r.next(), 3777279546);
    assert_eq!(r.next(), 2342155435);
    assert_eq!(r.next(), 1692513196);
    assert_eq!(r.next(), 1525286);
    assert_eq!(r.next(), 4071472047);
}

#[test]
fn rng_seeded_sequence() {
    let mut r = Rng::new();
    r.seed(12345);
    assert_eq!(r.next(), 3336926330);
    assert_eq!(r.next(), 1697253807);
    assert_eq!(r.next(), 2816511904);
}

#[test]
fn rng_zero_seed_is_default_seed() {
    let mut a = Rng::new();
    a.seed(0);
    let mut b = Rng::new();
    b.seed(DEFAULT_SEED);
    for _ in 0..100 {
        assert_eq!(a.next(), b.next());
    }
}

#[test]
fn rng_same_seed_same_sequence() {
    let mut a = Rng::new();
    let mut b = Rng::new();
    a.seed(777);
    b.seed(777);
    for _ in 0..1000 {
        assert_eq!(a.next(), b.next());
    }
}

#[test]
fn rng_never_draws_zero() {
    let mut r = Rng::new();
    r.seed(1);
    for _ in 0..100_000 {
        assert_ne!(r.next(), 0);
    }
}

#[test]
fn rng_seed_ignores_the_state_before() {
    let mut a = Rng::new();
    let mut b = Rng::new();
    for _ in 0..17 {
        b.next();
    }
    a.seed(99);
    b.seed(99);
    for _ in 0..100 {
        let x = a.next();
        assert_eq!(x, b.next());
        assert_ne!(x, 0);
    }
}
