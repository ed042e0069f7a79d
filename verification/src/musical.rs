//! Number theory behind the musical-interval analysis: greatest common
//! divisors, ratios in lowest terms, and the consonance ranking of named
//! intervals.
use crate::text::same_text;
use vstd::arithmetic::div_mod::*;
use vstd::arithmetic::mul::*;
use vstd::prelude::*;

verus! {

/// `d` is a positive divisor of `n`.
pub open spec fn divides(d: nat, n: nat) -> bool {
    d > 0 && n % d == 0
}

/// `g` is the greatest common divisor of `a` and `b`: it is zero exactly when
/// both are zero, otherwise it divides both, and every common divisor of `a`
/// and `b` divides it.
pub open spec fn is_gcd(g: nat, a: nat, b: nat) -> bool {
    &&& (g == 0 <==> (a == 0 && b == 0))
    &&& (g > 0 ==> divides(g, a) && divides(g, b))
    &&& forall|d: nat|
        #![trigger divides(d, a), divides(d, b)]
        divides(d, a) && divides(d, b) ==> g % d == 0
}

/// The value computed by Euclid's algorithm.
pub open spec fn spec_gcd(a: nat, b: nat) -> nat
    decreases b,
{
    if b == 0 {
        a
    } else {
        spec_gcd(b, a % b)
    }
}

/// If `d` divides `x` and `y`, it divides `x + k * y` for every integer `k`.
proof fn lemma_divides_combination(x: int, y: int, k: int, d: int)
    requires
        d > 0,
        x % d == 0,
        y % d == 0,
    ensures
        (x + k * y) % d == 0,
{
    lemma_fundamental_div_mod(x, d);
    lemma_fundamental_div_mod(y, d);
    let qx = x / d;
    let qy = y / d;
    assert(x + k * y == (qx + k * qy) * d) by (nonlinear_arith)
        requires
            x == d * qx,
            y == d * qy,
    ;
    lemma_mod_multiples_basic(qx + k * qy, d);
}

/// Euclid's algorithm computes the greatest common divisor.
pub proof fn lemma_spec_gcd_is_gcd(a: nat, b: nat)
    ensures
        is_gcd(spec_gcd(a, b), a, b),
    decreases b,
{
    if b == 0 {
        if a > 0 {
            lemma_mod_self_0(a as int);
        }
    } else {
        let r = a % b;
        let g = spec_gcd(b, r);
        lemma_spec_gcd_is_gcd(b, r);
        lemma_fundamental_div_mod(a as int, b as int);
        let q = (a / b) as int;
        assert(a as int == r + q * b) by {
            lemma_mul_is_commutative(q, b as int);
        }
        if g > 0 {
            lemma_divides_combination(r as int, b as int, q, g as int);
        }
        assert forall|d: nat|
            #![trigger divides(d, a), divides(d, b)]
            divides(d, a) && divides(d, b) implies g % d == 0 by {
            lemma_divides_combination(a as int, b as int, -q, d as int);
            assert((a as int) + (-q) * (b as int) == r as int) by (nonlinear_arith)
                requires
                    a as int == r + q * b,
            ;
            assert(divides(d, r));
        }
    }
}

/// Two greatest common divisors of the same pair are equal.
pub proof fn lemma_gcd_unique(g1: nat, g2: nat, a: nat, b: nat)
    requires
        is_gcd(g1, a, b),
        is_gcd(g2, a, b),
    ensures
        g1 == g2,
{
    if g1 > 0 {
        assert(divides(g1, a) && divides(g1, b));
        assert(divides(g2, a) && divides(g2, b));
        assert(g2 % g1 == 0);
        assert(g1 % g2 == 0);
        lemma_mod_is_zero(g2, g1);
        lemma_mod_is_zero(g1, g2);
    }
}

/// The greatest common divisor does not depend on the order of its arguments.
pub proof fn lemma_gcd_commutative(a: nat, b: nat)
    ensures
        spec_gcd(a, b) == spec_gcd(b, a),
{
    lemma_spec_gcd_is_gcd(a, b);
    lemma_spec_gcd_is_gcd(b, a);
    lemma_gcd_unique(spec_gcd(a, b), spec_gcd(b, a), a, b);
}

/// Greatest common divisor (Euclid's algorithm).
pub fn gcd(a: u32, b: u32) -> (g: u32)
    ensures
        g == spec_gcd(a as nat, b as nat),
        is_gcd(g as nat, a as nat, b as nat),
{
    let mut x = a;
    let mut y = b;
    while y != 0
        invariant
            spec_gcd(x as nat, y as nat) == spec_gcd(a as nat, b as nat),
        decreases y,
    {
        let t = y;
        y = x % y;
        x = t;
    }
    proof {
        lemma_spec_gcd_is_gcd(a as nat, b as nat);
    }
    x
}

/// Dividing both terms of a ratio by their greatest common divisor leaves
/// terms whose greatest common divisor is one.
pub proof fn lemma_reduced_terms_coprime(p: nat, q: nat)
    requires
        p > 0 || q > 0,
    ensures
        spec_gcd(p / spec_gcd(p, q), q / spec_gcd(p, q)) == 1,
{
    let g = spec_gcd(p, q);
    lemma_spec_gcd_is_gcd(p, q);
    let pr = p / g;
    let qr = q / g;
    lemma_fundamental_div_mod(p as int, g as int);
    lemma_fundamental_div_mod(q as int, g as int);
    assert(p == g * pr);
    assert(q == g * qr);
    assert(pr > 0 || qr > 0) by {
        lemma_mul_basics(g as int);
    }
    assert forall|d: nat|
        #![trigger divides(d, pr), divides(d, qr)]
        divides(d, pr) && divides(d, qr) implies 1nat % d == 0 by {
        lemma_fundamental_div_mod(pr as int, d as int);
        lemma_fundamental_div_mod(qr as int, d as int);
        let u = pr / d;
        let v = qr / d;
        let gd = g * d;
        assert(gd > 0) by {
            lemma_mul_strictly_positive(g as int, d as int);
        }
        assert(p == u * gd) by (nonlinear_arith)
            requires
                p == g * pr,
                pr == d * u,
                gd == g * d,
        ;
        assert(q == v * gd) by (nonlinear_arith)
            requires
                q == g * qr,
                qr == d * v,
                gd == g * d,
        ;
        lemma_mod_multiples_basic(u as int, gd as int);
        lemma_mod_multiples_basic(v as int, gd as int);
        assert(divides(gd, p) && divides(gd, q));
        assert(g % gd == 0);
        lemma_mod_is_zero(g, gd);
        assert(d <= 1) by (nonlinear_arith)
            requires
                g >= gd,
                gd == g * d,
                g > 0,
        ;
    }
    assert(is_gcd(1, pr, qr));
    lemma_spec_gcd_is_gcd(pr, qr);
    lemma_gcd_unique(1, spec_gcd(pr, qr), pr, qr);
}

/// The ratio `p / q` in lowest terms, as used for the Tenney height
/// `log2(p * q)` of an interval.
pub fn reduced_ratio(p: u32, q: u32) -> (r: (u32, u32))
    requires
        p > 0,
        q > 0,
    ensures
        r.0 as nat == p as nat / spec_gcd(p as nat, q as nat),
        r.1 as nat == q as nat / spec_gcd(p as nat, q as nat),
        r.0 * q == r.1 * p,
        spec_gcd(r.0 as nat, r.1 as nat) == 1,
{
    let g = gcd(p, q);
    proof {
        lemma_reduced_terms_coprime(p as nat, q as nat);
        lemma_fundamental_div_mod(p as int, g as int);
        lemma_fundamental_div_mod(q as int, g as int);
        let pr = (p / g) as int;
        let qr = (q / g) as int;
        assert(pr * q == qr * p) by (nonlinear_arith)
            requires
                p == g * pr,
                q == g * qr,
        ;
    }
    (p / g, q / g)
}

/// The ratio between harmonic channels `n_a` and `n_b`, larger over smaller,
/// in lowest terms; `None` when either channel is zero (the ratio is
/// undefined).
pub fn channel_ratio(n_a: u32, n_b: u32) -> (r: Option<(u32, u32)>)
    ensures
        r is None <==> (n_a == 0 || n_b == 0),
        r matches Some((p, q)) ==> {
            let hi = if n_a >= n_b { n_a } else { n_b };
            let lo = if n_a >= n_b { n_b } else { n_a };
            &&& p as nat == hi as nat / spec_gcd(hi as nat, lo as nat)
            &&& q as nat == lo as nat / spec_gcd(hi as nat, lo as nat)
            &&& p * lo == q * hi
            &&& spec_gcd(p as nat, q as nat) == 1
        },
{
    if n_a == 0 || n_b == 0 {
        return None;
    }
    let hi = if n_a >= n_b { n_a } else { n_b };
    let lo = if n_a >= n_b { n_b } else { n_a };
    Some(reduced_ratio(hi, lo))
}

/// Consonance rank of a named interval (lower is more consonant): unison,
/// octave, perfect fifth, perfect fourth, major third, minor third, major
/// sixth, minor sixth, major second, minor seventh, major seventh, minor
/// second, tritone rank 0 to 12 in that order; any other name ranks 13.
pub open spec fn consonance_rank_of(name: Seq<char>) -> nat {
    if name == "unison"@ {
        0
    } else if name == "octave"@ {
        1
    } else if name == "perfect fifth"@ {
        2
    } else if name == "perfect fourth"@ {
        3
    } else if name == "major third"@ {
        4
    } else if name == "minor third"@ {
        5
    } else if name == "major sixth"@ {
        6
    } else if name == "minor sixth"@ {
        7
    } else if name == "major second"@ {
        8
    } else if name == "minor seventh"@ {
        9
    } else if name == "major seventh"@ {
        10
    } else if name == "minor second"@ {
        11
    } else if name == "tritone"@ {
        12
    } else {
        13
    }
}

/// The consonance rank of the interval called `name`.
pub fn consonance_rank(name: &str) -> (r: u32)
    ensures
        r == consonance_rank_of(name@),
{
    if same_text(name, "unison") {
        0
    } else if same_text(name, "octave") {
        1
    } else if same_text(name, "perfect fifth") {
        2
    } else if same_text(name, "perfect fourth") {
        3
    } else if same_text(name, "major third") {
        4
    } else if same_text(name, "minor third") {
        5
    } else if same_text(name, "major sixth") {
        6
    } else if same_text(name, "minor sixth") {
        7
    } else if same_text(name, "major second") {
        8
    } else if same_text(name, "minor seventh") {
        9
    } else if same_text(name, "major seventh") {
        10
    } else if same_text(name, "minor second") {
        11
    } else if same_text(name, "tritone") {
        12
    } else {
        13
    }
}

} // verus!
