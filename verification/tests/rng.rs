use wave_coherence::rng::Rng;

#[test]
fn xorshift_steps_from_one() {
    let mut r = Rng::new(1);
    assert_eq!(r.next_u64(), 1082269761);
    assert_eq!(r.next_u64(), 1152992998833853505);
    assert_eq!(r.next_u64(), 11177516664432764457);
}

#[test]
fn zero_seed_is_replaced() {
    let mut a = Rng::new(0);
    let mut b = Rng::new(0xDEAD_BEEF_CAFE_BABE);
    assert_eq!(a.next_u64(), 2872271934144653387);
    assert_eq!(b.next_u64(), 2872271934144653387);
    for _ in 0..100 {
        assert_eq!(a.next_u64(), b.next_u64());
    }
}

#[test]
fn same_seed_same_sequence() {
    let mut a = Rng::new(42);
    let mut b = Rng::new(42);
    for _ in 0..1000 {
        assert_eq!(a.next_u64(), b.next_u64());
    }
}

#[test]
fn steps_are_never_zero() {
    let mut r = Rng::new(123);
    for _ in 0..10000 {
        assert_ne!(r.next_u64(), 0);
    }
}

#[test]
fn usize_exact_values() {
    let mut r = Rng::new(1);
    assert_eq!(r.usize(1000), 0);
    assert_eq!(r.usize(1000), 62);
    assert_eq!(r.usize(1000), 605);
}

#[test]
fn usize_stays_below_max() {
    let mut r = Rng::new(7);
    for max in 1..2000usize {
        assert!(r.usize(max) < max);
    }
    assert!(r.usize(usize::MAX) < usize::MAX);
}

#[test]
fn usize_of_zero_is_zero() {
    let mut r = Rng::new(9);
    for _ in 0..10 {
        assert_eq!(r.usize(0), 0);
    }
}

#[test]
fn usize_agrees_with_the_scaled_uniform_draw() {
    for &max in &[1usize, 2, 3, 7, 65, 1000, 1_003_853, (1 << 53) + 1, (1 << 60) + 12345, usize::MAX - 1, usize::MAX] {
        let mut a = Rng::new(42);
        let mut b = Rng::new(42);
        for _ in 0..20000 {
            let u = (b.next_u64() >> 11) as f64 / ((1u64 << 53) as f64);
            assert_eq!(a.usize(max), (u * max as f64) as usize);
        }
    }
}

#[test]
fn usize_rounds_the_product_as_a_double() {
    // k = (2^54 - 1) / 3: k * 3 / 2^53 = 2 - 2^-53, which rounds to 2.0.
    assert_eq!(Rng::new(0xf5f7_0445_27dd_03c7).usize(3), 2);
    assert_eq!(Rng::new(9130298977301444720).usize(1_000_000), 2359);
}
