//! Deterministic xorshift64 pseudo-random generator, and the integer model of
//! rounding to a double that its index draws go through.
use vstd::arithmetic::div_mod::*;
use vstd::arithmetic::mul::*;
use vstd::arithmetic::power2::*;
use vstd::prelude::*;

verus! {

/// The state a generator seeded with `seed` starts from: zero is replaced by a
/// fixed non-zero constant.
pub open spec fn seed_state(seed: u64) -> u64 {
    if seed == 0 {
        0xDEAD_BEEF_CAFE_BABEu64
    } else {
        seed
    }
}

/// One xorshift64 step (shifts 13, 7, 17).
pub open spec fn xorshift(x: u64) -> u64 {
    let a = x ^ (x << 13u64);
    let b = a ^ (a >> 7u64);
    b ^ (b << 17u64)
}

/// The state after `n` steps from state `s`.
pub open spec fn state_after(s: u64, n: nat) -> u64
    decreases n,
{
    if n == 0 {
        s
    } else {
        xorshift(state_after(s, (n - 1) as nat))
    }
}

/// 2^53: the number of distinct values the top 53 bits of a step can take.
pub open spec fn two_pow_53() -> int {
    9007199254740992
}

/// How many low bits a double drops from the integer `x`: none below 2^53,
/// otherwise one more than it drops from `x / 2`.
pub open spec fn dropped_bits(x: nat) -> nat
    decreases x,
{
    if x < two_pow_53() {
        0
    } else {
        1 + dropped_bits(x / 2)
    }
}

/// `x` as the nearest double: the nearest multiple of `2^dropped_bits(x)`,
/// ties going to the even multiple (IEEE round-to-nearest-even, for integers
/// a double reaches without overflow).
pub open spec fn round_to_double(x: nat) -> nat {
    let u = pow2(dropped_bits(x));
    let q = x / u;
    let rem = x % u;
    if 2 * rem > u || (2 * rem == u && q % 2 == 1) {
        (q + 1) * u
    } else {
        q * u
    }
}

/// The index in `[0, max)` drawn by one step from state `s`: the top 53
/// bits `k` of the next value, read as the fraction `k / 2^53`, times `max`
/// as a double, the product rounded to a double and then truncated. Since
/// `k / 2^53` is exact, this is `round(k * round(max)) / 2^53`, rounded down.
pub open spec fn draw_below(s: u64, max: usize) -> int {
    (round_to_double((xorshift(s) / 2048) as nat * round_to_double(max as nat)) as int)
        / two_pow_53()
}

/// Below 2^53 nothing is dropped; above, `x / 2^dropped_bits(x)` has exactly
/// 53 significant bits.
proof fn lemma_dropped_bits(x: nat)
    ensures
        pow2(dropped_bits(x)) >= 1,
        x / pow2(dropped_bits(x)) < two_pow_53(),
        dropped_bits(x) == 0 <==> x < two_pow_53(),
        dropped_bits(x) > 0 ==> x / pow2(dropped_bits(x)) >= two_pow_53() / 2,
    decreases x,
{
    lemma_pow2_pos(dropped_bits(x));
    lemma2_to64();
    if x >= two_pow_53() {
        let d = dropped_bits(x / 2);
        lemma_dropped_bits(x / 2);
        lemma_pow2_unfold(d + 1);
        lemma_pow2_pos(d);
        lemma_div_denominator(x as int, 2, pow2(d) as int);
        assert(x / pow2(d + 1) == (x / 2) / pow2(d));
    }
}

/// The parts of a rounding: `x = q * u + rem`, and the result is `q * u` or,
/// when `rem` is at least half of `u`, `(q + 1) * u`; so it lies within half
/// of `u` of `x`.
proof fn lemma_round_parts(x: nat)
    ensures
        ({
            let u = pow2(dropped_bits(x));
            let q = x / u;
            let rem = x % u;
            &&& x == q * u + rem
            &&& rem < u
            &&& (round_to_double(x) == q * u || (round_to_double(x) == (q + 1) * u && 2 * rem
                >= u))
            &&& 2 * round_to_double(x) <= 2 * x + u
        }),
{
    let u = pow2(dropped_bits(x));
    lemma_dropped_bits(x);
    lemma_fundamental_div_mod(x as int, u as int);
    lemma_mul_is_commutative(u as int, (x / u) as int);
    let q = x / u;
    let rem = x % u;
    if round_to_double(x) == (q + 1) * u {
        lemma_mul_is_distributive_add_other_way(u as int, q as int, 1);
    }
}

/// Zero is a double.
pub proof fn lemma_round_of_zero()
    ensures
        round_to_double(0) == 0,
{
    lemma2_to64();
    assert(dropped_bits(0) == 0);
    assert(0nat / 1nat == 0 && 0nat % 1nat == 0);
}

/// A draw stays below `max`: rounding `k * round(max)` to a double, for
/// `k < 2^53`, gives less than `2^53 * max`.
pub proof fn lemma_rounded_draw_below(k: nat, max: nat)
    requires
        k < two_pow_53(),
        max > 0,
    ensures
        round_to_double(k * round_to_double(max)) < two_pow_53() * max,
{
    let t = two_pow_53();
    let s1 = dropped_bits(max);
    let u1 = pow2(s1);
    let q1 = max / u1;
    let rem1 = max % u1;
    let m = round_to_double(max);
    lemma_dropped_bits(max);
    lemma_round_parts(max);
    let kk = k * m;
    let s2 = dropped_bits(kk);
    let u2 = pow2(s2);
    let q2 = kk / u2;
    let rem2 = kk % u2;
    let p = round_to_double(kk);
    lemma_dropped_bits(kk);
    lemma_round_parts(kk);
    assert(kk <= (t - 1) * m) by (nonlinear_arith)
        requires
            kk == k * m,
            k < t,
    ;
    if s1 == 0 {
        assert(u1 == 1) by {
            lemma2_to64();
        }
        assert(q1 == max && rem1 == 0);
        assert(m == max) by {
            lemma_mul_basics(q1 as int);
        }
        if s2 == 0 {
            assert(u2 == 1) by {
                lemma2_to64();
            }
            assert(p < t * max) by (nonlinear_arith)
                requires
                    2 * p <= 2 * kk + 1,
                    kk <= (t - 1) * max,
                    max > 0,
            ;
        } else {
            assert(t / 2 * u2 <= kk) by (nonlinear_arith)
                requires
                    q2 >= t / 2,
                    kk == q2 * u2 + rem2,
                    rem2 >= 0,
                    u2 >= 1,
            ;
            assert(p < t * max) by (nonlinear_arith)
                requires
                    2 * p <= 2 * kk + u2,
                    t / 2 * u2 <= kk,
                    kk <= (t - 1) * max,
                    max > 0,
                    t == 9007199254740992,
            ;
        }
    } else {
        // max is at least 2^53 and rounds to m = c * u1 with 2^52 <= c <= 2^53.
        let c: nat = m / u1;
        assert(m == c * u1 && t / 2 <= c <= t && (c == q1 || c == q1 + 1)) by {
            if m == (q1 + 1) * u1 {
                lemma_div_multiples_vanish((q1 + 1) as int, u1 as int);
                lemma_mul_is_commutative((q1 + 1) as int, u1 as int);
            } else {
                lemma_div_multiples_vanish(q1 as int, u1 as int);
                lemma_mul_is_commutative(q1 as int, u1 as int);
            }
        }
        assert(kk < t * m) by (nonlinear_arith)
            requires
                kk <= (t - 1) * m,
                m == c * u1,
                c >= t / 2,
                u1 >= 1,
                t == 9007199254740992,
        ;
        // What 2^53 * max is at least.
        assert(2 * t * max >= 2 * t * m - t * u1) by (nonlinear_arith)
            requires
                max == q1 * u1 + rem1,
                m == q1 * u1 || (m == (q1 + 1) * u1 && 2 * rem1 >= u1),
                u1 >= 1,
                t > 0,
        ;
        if s2 > 52 + s1 {
            // Here the rounding unit is at least 2^53 * u1, and in fact equal to it.
            lemma_pow2_adds(53 + s1, (s2 - 53 - s1) as nat);
            lemma_pow2_adds(53, s1);
            lemma_pow2_pos((s2 - 53 - s1) as nat);
            assert(pow2(53) == t) by {
                lemma2_to64_rest();
            }
            let big = pow2(53 + s1);
            assert(big == t * u1);
            assert(u2 >= big) by (nonlinear_arith)
                requires
                    u2 == big * pow2((s2 - 53 - s1) as nat),
                    pow2((s2 - 53 - s1) as nat) >= 1,
                    big >= 0,
            ;
            assert(t / 2 * u2 <= kk) by (nonlinear_arith)
                requires
                    q2 >= t / 2,
                    kk == q2 * u2 + rem2,
                    rem2 >= 0,
                    u2 >= 1,
            ;
            // So kk >= 2^105 * u1, which needs c > 2^52.
            assert(c > t / 2) by (nonlinear_arith)
                requires
                    t / 2 * u2 <= kk,
                    u2 >= t * u1,
                    kk == k * (c * u1),
                    k < t,
                    u1 >= 1,
                    c <= t,
                    t == 9007199254740992,
            ;
            // q2 is below c, and reaching c - 1 leaves too little to round up.
            assert(q2 < c) by (nonlinear_arith)
                requires
                    kk == q2 * u2 + rem2,
                    rem2 >= 0,
                    kk < t * m,
                    m == c * u1,
                    u2 >= t * u1,
                    u1 >= 1,
            ;
            assert(p <= (c - 1) * u2) by (nonlinear_arith)
                requires
                    p == q2 * u2 || (p == (q2 + 1) * u2 && 2 * rem2 >= u2),
                    kk == q2 * u2 + rem2,
                    q2 < c,
                    kk <= (t - 1) * m,
                    m == c * u1,
                    u2 >= t * u1,
                    c > t / 2,
                    u1 >= 1,
                    t == 9007199254740992,
            ;
            // The unit is exactly 2^53 * u1: one more bit would put kk past 2^53 * m.
            assert(u2 == t * u1) by {
                if s2 > 53 + s1 {
                    lemma_pow2_adds(54 + s1, (s2 - 54 - s1) as nat);
                    lemma_pow2_adds(54, s1);
                    lemma_pow2_pos((s2 - 54 - s1) as nat);
                    assert(pow2(54) == 2 * t) by {
                        lemma2_to64_rest();
                    }
                    assert(u2 >= 2 * t * u1) by (nonlinear_arith)
                        requires
                            u2 == pow2(54 + s1) * pow2((s2 - 54 - s1) as nat),
                            pow2(54 + s1) == 2 * t * u1,
                            pow2((s2 - 54 - s1) as nat) >= 1,
                            t > 0,
                            u1 >= 1,
                    ;
                    assert(false) by (nonlinear_arith)
                        requires
                            t / 2 * u2 <= kk,
                            u2 >= 2 * t * u1,
                            kk < t * m,
                            m == c * u1,
                            c <= t,
                            u1 >= 1,
                            t == 9007199254740992,
                    ;
                }
                assert(s2 == 53 + s1);
            }
            assert(p <= t * m - t * u1) by (nonlinear_arith)
                requires
                    p <= (c - 1) * u2,
                    u2 == t * u1,
                    m == c * u1,
            ;
            assert(p < t * max) by (nonlinear_arith)
                requires
                    p <= t * m - t * u1,
                    2 * t * max >= 2 * t * m - t * u1,
                    u1 >= 1,
                    t > 0,
            ;
        } else {
            // Here the rounding unit is at most 2^52 * u1.
            lemma_pow2_adds(52, s1);
            assert(pow2(52) == t / 2) by {
                lemma2_to64_rest();
            }
            if s2 < 52 + s1 {
                lemma_pow2_strictly_increases(s2, 52 + s1);
            }
            assert(u2 <= t / 2 * u1);
            assert(kk < t * u2) by (nonlinear_arith)
                requires
                    kk == q2 * u2 + rem2,
                    q2 < t,
                    rem2 < u2,
            ;
            assert(p < t * max) by (nonlinear_arith)
                requires
                    2 * p <= 2 * kk + u2,
                    u2 <= t / 2 * u1,
                    kk < t * u2,
                    kk <= (t - 1) * m,
                    m == c * u1,
                    t / 2 <= c,
                    c == q1 || c == q1 + 1,
                    c == q1 ==> m <= max,
                    c == q1 + 1 ==> c >= t / 2 + 1,
                    2 * t * max >= 2 * t * m - t * u1,
                    u1 >= 1,
                    t == 9007199254740992,
            ;
        }
    }
}

/// `x` rounded to a double, computed on integers.
pub(crate) fn round_exec(x: u128) -> (r: u128)
    requires
        x < 0x100_0000_0000_0000_0000_0000_0000_0000u128,
    ensures
        r == round_to_double(x as nat),
        r <= 2 * x,
{
    let mut y: u128 = x;
    let mut u: u128 = 1;
    let ghost mut s: nat = 0;
    proof {
        lemma2_to64();
        lemma_div_basics(x as int);
    }
    while y >= 9007199254740992
        invariant
            u == pow2(s),
            u >= 1,
            y == x / u,
            y * u <= x,
            dropped_bits(x as nat) == s + dropped_bits(y as nat),
            s > 0 ==> y >= 4503599627370496,
            x < 0x100_0000_0000_0000_0000_0000_0000_0000u128,
        decreases y,
    {
        proof {
            lemma_pow2_unfold(s + 1);
            lemma_div_denominator(x as int, u as int, 2);
            lemma_fundamental_div_mod(x as int, (u * 2) as int);
        }
        assert(2 * u <= x) by (nonlinear_arith)
            requires
                y * u <= x,
                y >= 2,
                u >= 1,
        ;
        y = y / 2;
        u = u * 2;
        proof {
            s = s + 1;
            assert(x / u == y);
            assert(y * u <= x) by (nonlinear_arith)
                requires
                    x == u * (x / u) + x % u,
                    x % u >= 0,
                    y == x / u,
            ;
        }
    }
    proof {
        lemma2_to64();
        lemma_dropped_bits(x as nat);
        lemma_fundamental_div_mod(x as int, u as int);
        assert(s == dropped_bits(x as nat));
    }
    let rem = x - y * u;
    assert(rem == x % u);
    assert(rem < u);
    let up = 2 * rem > u || (2 * rem == u && y % 2 == 1);
    if up {
        assert(y * u + u <= 2 * x) by (nonlinear_arith)
            requires
                y * u + rem == x,
                2 * rem >= u,
                u >= 1,
                s == 0 ==> u == 1,
                s > 0 ==> y >= 1,
                y * u <= x,
        ;
        assert((y + 1) * u == y * u + u) by (nonlinear_arith);
        (y + 1) * u
    } else {
        y * u
    }
}

/// A xorshift step never maps a non-zero state to zero.
pub proof fn lemma_xorshift_nonzero(x: u64)
    requires
        x != 0,
    ensures
        xorshift(x) != 0,
{
    let a = x ^ (x << 13u64);
    assert(a != 0) by (bit_vector)
        requires
            x != 0,
            a == x ^ (x << 13u64),
    ;
    let b = a ^ (a >> 7u64);
    assert(b != 0) by (bit_vector)
        requires
            a != 0,
            b == a ^ (a >> 7u64),
    ;
    let c = b ^ (b << 17u64);
    assert(c != 0) by (bit_vector)
        requires
            b != 0,
            c == b ^ (b << 17u64),
    ;
}

/// A generator started from a non-zero state stays non-zero forever.
pub proof fn lemma_state_after_nonzero(s: u64, n: nat)
    requires
        s != 0,
    ensures
        state_after(s, n) != 0,
    decreases n,
{
    if n > 0 {
        lemma_state_after_nonzero(s, (n - 1) as nat);
        lemma_xorshift_nonzero(state_after(s, (n - 1) as nat));
    }
}

/// A draw below `max` lies in `[0, max)`, and is zero when `max` is zero.
pub proof fn lemma_draw_below_bound(s: u64, max: usize)
    ensures
        0 <= draw_below(s, max),
        max > 0 ==> draw_below(s, max) < max,
        max == 0 ==> draw_below(s, max) == 0,
{
    let k = (xorshift(s) / 2048) as nat;
    let t = two_pow_53();
    assert(k < t);
    let p = round_to_double(k * round_to_double(max as nat));
    if max > 0 {
        lemma_rounded_draw_below(k, max as nat);
        lemma_multiply_divide_lt(p as int, t, max as int);
    } else {
        lemma_round_of_zero();
        lemma_mul_basics(k as int);
        assert(p == 0);
    }
}

/// Xorshift64 pseudo-random generator.
pub struct Rng {
    state: u64,
}

impl View for Rng {
    type V = u64;

    /// The current state.
    closed spec fn view(&self) -> u64 {
        self.state
    }
}

impl Rng {
    #[verifier::type_invariant]
    spec fn state_nonzero(self) -> bool {
        self.state != 0
    }

    /// A generator seeded with `seed` (zero is replaced by a fixed non-zero
    /// constant).
    pub fn new(seed: u64) -> (r: Self)
        ensures
            r@ == seed_state(seed),
            r@ != 0,
    {
        Rng { state: if seed == 0 { 0xDEAD_BEEF_CAFE_BABE } else { seed } }
    }

    /// One raw xorshift64 step; returns the new, non-zero, state.
    pub fn next_u64(&mut self) -> (r: u64)
        ensures
            r == xorshift(old(self)@),
            final(self)@ == r,
            r != 0,
    {
        proof {
            use_type_invariant(&*self);
            lemma_xorshift_nonzero(self.state);
        }
        let mut x = self.state;
        x ^= x << 13;
        x ^= x >> 7;
        x ^= x << 17;
        self.state = x;
        x
    }

    /// Uniform index in `[0, max)` (zero when `max` is zero): the top 53 bits
    /// of the next step as a fraction of 2^53, times `max` as a double, the
    /// product rounded to a double and truncated.
    pub fn usize(&mut self, max: usize) -> (r: usize)
        ensures
            final(self)@ == xorshift(old(self)@),
            r == draw_below(old(self)@, max),
            max > 0 ==> r < max,
            max == 0 ==> r == 0,
    {
        let ghost s0 = self@;
        let k = self.next_u64() / 2048;
        let m = round_exec(max as u128);
        assert((k as u128) * m < 0x100_0000_0000_0000_0000_0000_0000_0000u128) by (nonlinear_arith)
            requires
                k < 9007199254740992,
                m <= 2 * max,
                max < 0x1_0000_0000_0000_0000u128,
        ;
        let p = round_exec((k as u128) * m);
        proof {
            lemma_draw_below_bound(s0, max);
        }
        (p / 9007199254740992) as usize
    }
}

} // verus!
