use wave_coherence::musical::{gcd, reduced_ratio, channel_ratio, consonance_rank};

#[test]
fn gcd_of_common_pairs() {
    assert_eq!(gcd(12, 18), 6);
    assert_eq!(gcd(18, 12), 6);
    assert_eq!(gcd(17, 5), 1);
    assert_eq!(gcd(45, 32), 1);
    assert_eq!(gcd(16, 16), 16);
}

#[test]
fn gcd_with_zero() {
    assert_eq!(gcd(7, 0), 7);
    assert_eq!(gcd(0, 7), 7);
    assert_eq!(gcd(0, 0), 0);
}

#[test]
fn gcd_is_commutative_on_samples() {
    for a in 0..40u32 {
        for b in 0..40u32 {
            assert_eq!(gcd(a, b), gcd(b, a));
            let g = gcd(a, b);
            if g > 0 {
                assert_eq!(a % g, 0);
                assert_eq!(b % g, 0);
            }
        }
    }
}

#[test]
fn gcd_of_large_values() {
    assert_eq!(gcd(u32::MAX, u32::MAX - 1), 1);
    assert_eq!(gcd(4_294_967_294, 2_147_483_647), 2_147_483_647);
}

#[test]
fn reduced_ratio_lowest_terms() {
    assert_eq!(reduced_ratio(6, 4), (3, 2));
    assert_eq!(reduced_ratio(4, 2), (2, 1));
    assert_eq!(reduced_ratio(1, 1), (1, 1));
    assert_eq!(reduced_ratio(6, 3), (2, 1));
    assert_eq!(reduced_ratio(45, 32), (45, 32));
    let (p, q) = reduced_ratio(360, 84);
    assert_eq!((p, q), (30, 7));
    assert_eq!(gcd(p, q), 1);
}

#[test]
fn channel_ratio_orders_and_reduces() {
    assert_eq!(channel_ratio(4, 6), Some((3, 2)));
    assert_eq!(channel_ratio(6, 4), Some((3, 2)));
    assert_eq!(channel_ratio(2, 1), Some((2, 1)));
    assert_eq!(channel_ratio(5, 5), Some((1, 1)));
}

#[test]
fn channel_ratio_of_a_silent_channel_is_undefined() {
    assert_eq!(channel_ratio(0, 3), None);
    assert_eq!(channel_ratio(3, 0), None);
    assert_eq!(channel_ratio(0, 0), None);
}

#[test]
fn consonance_ranks_of_named_intervals() {
    assert_eq!(consonance_rank("unison"), 0);
    assert_eq!(consonance_rank("octave"), 1);
    assert_eq!(consonance_rank("perfect fifth"), 2);
    assert_eq!(consonance_rank("perfect fourth"), 3);
    assert_eq!(consonance_rank("major third"), 4);
    assert_eq!(consonance_rank("minor third"), 5);
    assert_eq!(consonance_rank("major sixth"), 6);
    assert_eq!(consonance_rank("minor sixth"), 7);
    assert_eq!(consonance_rank("major second"), 8);
    assert_eq!(consonance_rank("minor seventh"), 9);
    assert_eq!(consonance_rank("major seventh"), 10);
    assert_eq!(consonance_rank("minor second"), 11);
    assert_eq!(consonance_rank("tritone"), 12);
}

#[test]
fn unknown_interval_ranks_last() {
    assert_eq!(consonance_rank("unknown"), 13);
    assert_eq!(consonance_rank(""), 13);
    assert_eq!(consonance_rank("Octave"), 13);
}
