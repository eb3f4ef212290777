//! Rational numbers as a sign, a numerator and a denominator.

use vstd::prelude::*;
use vstd::arithmetic::div_mod::{lemma_fundamental_div_mod, lemma_mod_bound};
use crate::bigint::{capacity, gcd, lemma_value_bound, odd_modulus, BigInt};
use crate::hensel_code::{embed_value, lemma_embedding_law, HenselCode};

verus! {

/// The fraction `num / denom`, negated where `negative` is set. It is kept as
/// given: nothing reduces it to lowest terms.
#[derive(Clone, Copy, Debug)]
pub struct Rational<const L: usize> {
    pub num: BigInt<L>,
    pub denom: BigInt<L>,
    pub negative: bool,
}

/// The numerator of a fraction with its sign.
pub open spec fn signed(magnitude: nat, negative: bool) -> int {
    if negative {
        -(magnitude as int)
    } else {
        magnitude as int
    }
}

/// Whether `n1 / d1` and `n2 / d2` are the same number.
pub open spec fn same_fraction(n1: int, d1: nat, n2: int, d2: nat) -> bool {
    n1 * d2 == n2 * d1
}

impl<const L: usize> Rational<L> {
    /// The numerator with the fraction's sign.
    pub open spec fn signed_num(&self) -> int {
        signed(self.num@, self.negative)
    }

    /// Whether the two fractions are the same number.
    pub open spec fn same_value(&self, other: &Self) -> bool {
        same_fraction(self.signed_num(), self.denom@, other.signed_num(), other.denom@)
    }

    /// The fraction `num / denom`, not negated.
    pub fn new(num: BigInt<L>, denom: BigInt<L>) -> (r: Self)
        ensures
            r.num@ == num@,
            r.denom@ == denom@,
            !r.negative,
    {
        Rational { num, denom, negative: false }
    }
}

/// The fraction that the extended Euclidean algorithm reads out of the
/// remainders `r0 > r1` and the cofactor magnitudes `u0`, `u1` of a residue
/// modulo `g`: the first remainder whose square, doubled, lies below `g`,
/// over its cofactor, with the cofactor's sign.
pub open spec fn reconstruct(g: nat, r0: nat, r1: nat, u0: nat, u1: nat, negative: bool) -> (
    nat,
    nat,
    bool,
)
    decreases r1,
{
    if r1 == 0 || 2 * r1 * r1 < g {
        (r1, u1, negative)
    } else {
        reconstruct(g, r1, r0 % r1, u1, u0 + (r0 / r1) * u1, !negative)
    }
}

/// A number lies below the doubled-square bound exactly if it does not exceed
/// the quotient of half the modulus by it.
pub proof fn lemma_square_bound(r: nat, g: nat)
    requires
        r > 0,
        g % 2 == 1,
    ensures
        (r <= (g / 2) / r) == (2 * r * r < g),
{
    let h = g / 2;
    lemma_fundamental_div_mod(g as int, 2);
    lemma_fundamental_div_mod(h as int, r as int);
    lemma_mod_bound(h as int, r as int);
    let q = h / r;
    if r <= q {
        assert(r * r <= r * q) by (nonlinear_arith)
            requires
                r <= q,
        ;
    } else {
        assert(r * q <= r * (r - 1)) by (nonlinear_arith)
            requires
                q <= r - 1,
        ;
        assert(r * (r - 1) == r * r - r) by (nonlinear_arith);
    }
    assert(2 * r * r == 2 * (r * r)) by (nonlinear_arith);
}

/// One step of the extended Euclidean algorithm keeps the cofactors small:
/// the cross products of remainders and cofactors still add up to `g`.
proof fn lemma_euclid_bounds(g: nat, r0: nat, r1: nat, u0: nat, u1: nat)
    requires
        r1 > 0,
        r1 < r0,
        u1 >= 1,
        u0 * r1 + u1 * r0 == g,
    ensures
        1 <= u0 + (r0 / r1) * u1 <= g,
        u1 * (r0 % r1) + (u0 + (r0 / r1) * u1) * r1 == g,
        (r0 / r1) * u1 <= g,
{
    let q = r0 / r1;
    let m = r0 % r1;
    lemma_fundamental_div_mod(r0 as int, r1 as int);
    lemma_mod_bound(r0 as int, r1 as int);
    assert(u1 * m + (u0 + q * u1) * r1 == g) by (nonlinear_arith)
        requires
            u0 * r1 + u1 * r0 == g,
            r0 == r1 * q + m,
    ;
    assert((u0 + q * u1) <= (u0 + q * u1) * r1) by (nonlinear_arith)
        requires
            r1 >= 1,
    ;
    assert(u1 * m >= 0) by (nonlinear_arith);
    assert(q >= 1) by (nonlinear_arith)
        requires
            r0 == r1 * q + m,
            m < r1,
            r1 < r0,
    ;
    assert(q * u1 >= 1) by (nonlinear_arith)
        requires
            q >= 1,
            u1 >= 1,
    ;
}

/// One step of the extended Euclidean algorithm keeps the cofactors
/// cofactors: each times the residue `n` is congruent to its remainder.
proof fn lemma_euclid_step(
    g: nat,
    n: nat,
    r0: nat,
    r1: nat,
    u0: nat,
    u1: nat,
    negative: bool,
    k0: int,
    k1: int,
)
    requires
        r1 > 0,
        signed(u1, negative) * n - r1 == k1 * g,
        signed(u0, !negative) * n - r0 == k0 * g,
    ensures
        signed(u0 + (r0 / r1) * u1, !negative) * n - (r0 % r1) == (k0 - (r0 / r1) * k1) * g,
{
    let q = r0 / r1;
    let m = r0 % r1;
    lemma_fundamental_div_mod(r0 as int, r1 as int);
    let t0 = signed(u0, !negative);
    let t1 = signed(u1, negative);
    assert(signed(u0 + q * u1, !negative) == t0 - q * t1) by (nonlinear_arith)
        requires
            t0 == signed(u0, !negative),
            t1 == signed(u1, negative),
    ;
    assert((t0 - q * t1) * n - m == (k0 - q * k1) * g) by (nonlinear_arith)
        requires
            t1 * n - r1 == k1 * g,
            t0 * n - r0 == k0 * g,
            r0 == r1 * q + m,
    ;
}

/// Three numbers whose doubled squares lie below `g` cannot give products
/// that add up to `g`.
proof fn lemma_small_products(g: int, n: int, d: int, r: int, u: int)
    requires
        0 <= n,
        0 <= r,
        0 <= u <= d,
        2 * n * n < g,
        2 * d * d < g,
        2 * r * r < g,
    ensures
        n * u + d * r < g,
{
    assert(n * u <= n * d) by (nonlinear_arith)
        requires
            0 <= n,
            u <= d,
    ;
    assert(2 * (n * d) <= n * n + d * d) by (nonlinear_arith);
    assert(2 * (d * r) <= d * d + r * r) by (nonlinear_arith);
    assert(2 * n * n == 2 * (n * n) && 2 * d * d == 2 * (d * d) && 2 * r * r == 2 * (r * r))
        by (nonlinear_arith);
}

/// Where the algorithm stops, a small fraction that is a combination of the
/// last two rows is a multiple of the last row alone.
proof fn lemma_stop_means_multiple(
    g: nat,
    r0: nat,
    r1: nat,
    u0: nat,
    u1: nat,
    negative: bool,
    num: int,
    den: int,
    alpha: int,
    beta: int,
)
    requires
        2 * r0 * r0 >= g,
        2 * r1 * r1 < g,
        u0 * r1 + u1 * r0 == g,
        u1 >= 1,
        num == alpha * r0 + beta * r1,
        den == alpha * signed(u0, !negative) + beta * signed(u1, negative),
        den >= 1,
        2 * num * num < g,
        2 * den * den < g,
    ensures
        alpha == 0,
{
    let (r0i, r1i, u0i, u1i, gi) = (r0 as int, r1 as int, u0 as int, u1 as int, g as int);
    let x = if alpha >= 0 {
        alpha
    } else {
        -alpha
    };
    let y = if beta >= 0 {
        beta
    } else {
        -beta
    };
    let n = if num >= 0 {
        num
    } else {
        -num
    };
    assert(2 * n * n == 2 * num * num) by (nonlinear_arith)
        requires
            n == num || n == -num,
    ;
    if alpha != 0 {
        assert(x * r0i >= r0i) by (nonlinear_arith)
            requires
                x >= 1,
                r0i >= 0,
        ;
        assert(y * r1i >= 0 && x * u0i >= 0) by (nonlinear_arith)
            requires
                x >= 1,
                y >= 0,
                r1i >= 0,
                u0i >= 0,
        ;
        assert(alpha * r0i == if alpha >= 0 {
            x * r0i
        } else {
            -(x * r0i)
        }) by (nonlinear_arith)
            requires
                x == alpha || x == -alpha,
                alpha >= 0 ==> x == alpha,
                alpha < 0 ==> x == -alpha,
        ;
        assert(beta * r1i == if beta >= 0 {
            y * r1i
        } else {
            -(y * r1i)
        }) by (nonlinear_arith)
            requires
                beta >= 0 ==> y == beta,
                beta < 0 ==> y == -beta,
        ;
        if (alpha > 0) == (beta >= 0) || beta == 0 {
            assert(y * r1i == 0 || beta != 0) by (nonlinear_arith)
                requires
                    beta >= 0 ==> y == beta,
                    beta < 0 ==> y == -beta,
            ;
            assert(n >= r0i);
            assert(2 * n * n >= 2 * r0i * r0i) by (nonlinear_arith)
                requires
                    n >= r0i,
                    r0i >= 0,
            ;
        } else {
            assert(y >= 1);
            assert(y * u1i >= u1i) by (nonlinear_arith)
                requires
                    y >= 1,
                    u1i >= 0,
            ;
            let t0 = signed(u0, !negative);
            let t1 = signed(u1, negative);
            assert(alpha * t0 == if (alpha > 0) == negative {
                x * u0i
            } else {
                -(x * u0i)
            }) by (nonlinear_arith)
                requires
                    alpha >= 0 ==> x == alpha,
                    alpha < 0 ==> x == -alpha,
                    negative ==> t0 == u0i,
                    !negative ==> t0 == -u0i,
            ;
            assert(beta * t1 == if (beta > 0) == negative {
                -(y * u1i)
            } else {
                y * u1i
            }) by (nonlinear_arith)
                requires
                    beta >= 0 ==> y == beta,
                    beta < 0 ==> y == -beta,
                    negative ==> t1 == -u1i,
                    !negative ==> t1 == u1i,
            ;
            assert(den == x * u0i + y * u1i);
            assert(den >= u1i);
            let m = if alpha > 0 {
                num
            } else {
                -num
            };
            assert(m == x * r0i - y * r1i);
            assert(m * u1i + den * r1i == x * gi) by (nonlinear_arith)
                requires
                    m == x * r0i - y * r1i,
                    den == x * u0i + y * u1i,
                    u0i * r1i + u1i * r0i == gi,
            ;
            assert(x * gi >= gi) by (nonlinear_arith)
                requires
                    x >= 1,
                    gi >= 0,
            ;
            assert(m * u1i <= n * u1i) by (nonlinear_arith)
                requires
                    m <= n,
                    u1i >= 0,
            ;
            lemma_small_products(gi, n, den, r1i, u1i);
        }
    }
}

/// The algorithm finds every small fraction: a fraction `num / den` with
/// doubled squares below `g` that is a combination of the two rows at hand
/// is the same number as the fraction read out.
proof fn lemma_reconstruct_finds(
    g: nat,
    r0: nat,
    r1: nat,
    u0: nat,
    u1: nat,
    negative: bool,
    num: int,
    den: int,
    alpha: int,
    beta: int,
) -> (m: int)
    requires
        r1 < r0,
        2 * r0 * r0 >= g,
        u0 * r1 + u1 * r0 == g,
        u1 >= 1,
        num == alpha * r0 + beta * r1,
        den == alpha * signed(u0, !negative) + beta * signed(u1, negative),
        den >= 1,
        2 * num * num < g,
        2 * den * den < g,
    ensures
        ({
            let out = reconstruct(g, r0, r1, u0, u1, negative);
            &&& m >= 1
            &&& num == m * signed(out.0, out.2)
            &&& den == m * out.1
        }),
    decreases r1,
{
    if r1 == 0 || 2 * r1 * r1 < g {
        assert(2 * r1 * r1 < g) by (nonlinear_arith)
            requires
                r1 == 0 || 2 * r1 * r1 < g,
                g > 0,
        ;
        lemma_stop_means_multiple(g, r0, r1, u0, u1, negative, num, den, alpha, beta);
        let t1 = signed(u1, negative);
        let m = if negative {
            -beta
        } else {
            beta
        };
        assert(num == m * signed(r1, negative) && den == m * u1) by (nonlinear_arith)
            requires
                alpha == 0,
                num == alpha * r0 + beta * r1,
                den == alpha * signed(u0, !negative) + beta * t1,
                negative ==> t1 == -(u1 as int) && signed(r1, negative) == -(r1 as int) && m
                    == -beta,
                !negative ==> t1 == u1 as int && signed(r1, negative) == r1 as int && m == beta,
        ;
        assert(m >= 1) by (nonlinear_arith)
            requires
                den == m * u1,
                den >= 1,
                u1 >= 1,
        ;
        m
    } else {
        let q = r0 / r1;
        let m = r0 % r1;
        let u2 = u0 + q * u1;
        lemma_euclid_bounds(g, r0, r1, u0, u1);
        lemma_fundamental_div_mod(r0 as int, r1 as int);
        lemma_mod_bound(r0 as int, r1 as int);
        let t0 = signed(u0, !negative);
        let t1 = signed(u1, negative);
        let t2 = signed(u2, !negative);
        assert(t2 == t0 - q * t1) by (nonlinear_arith)
            requires
                u2 == u0 + q * u1,
                negative ==> t0 == u0 as int && t1 == -(u1 as int) && t2 == u2 as int,
                !negative ==> t0 == -(u0 as int) && t1 == u1 as int && t2 == -(u2 as int),
        ;
        assert(num == (alpha * q + beta) * r1 + alpha * m) by (nonlinear_arith)
            requires
                num == alpha * r0 + beta * r1,
                r0 == r1 * q + m,
        ;
        assert(den == (alpha * q + beta) * t1 + alpha * t2) by (nonlinear_arith)
            requires
                den == alpha * t0 + beta * t1,
                t2 == t0 - q * t1,
        ;
        lemma_reconstruct_finds(g, r1, m, u1, u2, !negative, num, den, alpha * q + beta, alpha)
    }
}

/// Embedding a small fraction and reading the residue back gives the same
/// number: for a denominator coprime to the modulus, and numerator and
/// denominator whose doubled squares lie below the modulus. What is read
/// back is the fraction with a common factor `m` taken out.
pub proof fn lemma_round_trip(g: nat, num: int, den: nat) -> (m: int)
    requires
        odd_modulus(g),
        den >= 1,
        gcd(g, den) == 1,
        2 * num * num < g,
        2 * den * den < g,
    ensures
        ({
            let out = reconstruct(g, g, embed_value(g, num, den), 0, 1, false);
            &&& same_fraction(signed(out.0, out.2), out.1, num, den)
            &&& m >= 1
            &&& num == m * signed(out.0, out.2)
            &&& den == m * out.1
        }),
{
    let n = embed_value(g, num, den);
    let gi = g as int;
    lemma_embedding_law(g, num, den);
    lemma_mod_bound((((num % gi) as nat) * crate::arith::mod_inverse(den, g)) as int, gi);
    vstd::arithmetic::div_mod::lemma_mod_equivalence(num, (den * n) as int, gi);
    let dn = (den * n) as int;
    let diff = num - dn;
    lemma_fundamental_div_mod(diff, gi);
    let alpha = diff / gi;
    let beta = den as int;
    assert(num == alpha * gi + dn) by (nonlinear_arith)
        requires
            num - dn == gi * alpha,
    ;
    assert(dn == beta * (n as int)) by (nonlinear_arith)
        requires
            dn == den * n,
            beta == den,
    ;
    assert(beta == alpha * 0 + beta * 1) by (nonlinear_arith);
    assert(0 * n + 1 * g == g) by (nonlinear_arith);
    assert(2 * g * g >= g) by (nonlinear_arith)
        requires
            g >= 1,
    ;
    let m = lemma_reconstruct_finds(g, g, n, 0, 1, false, num, den as int, alpha, den as int);
    let out = reconstruct(g, g, n, 0, 1, false);
    assert(signed(out.0, out.2) * den == num * out.1) by (nonlinear_arith)
        requires
            num == m * signed(out.0, out.2),
            den == m * out.1,
    ;
    m
}

/// The round trip of a fraction that is not in lowest terms: where taking
/// out a common factor `c` leaves numerator `n0` and denominator `d0` with
/// doubled squares below the modulus, what is read back is still the same
/// number.
pub proof fn lemma_round_trip_scaled(g: nat, num: int, den: nat, c: nat, n0: int, d0: nat)
    requires
        odd_modulus(g),
        gcd(g, den) == 1,
        num == c * n0,
        den == c * d0,
        2 * n0 * n0 < g,
        2 * d0 * d0 < g,
    ensures
        embed_value(g, num, den) == embed_value(g, n0, d0),
        ({
            let out = reconstruct(g, g, embed_value(g, num, den), 0, 1, false);
            same_fraction(signed(out.0, out.2), out.1, num, den)
        }),
{
    let gi = g as int;
    let x = embed_value(g, num, den);
    assert(den >= 1) by {
        reveal_with_fuel(gcd, 2);
    }
    assert(c >= 1 && d0 >= 1 && d0 * c == den) by (nonlinear_arith)
        requires
            den == c * d0,
            den >= 1,
    ;
    crate::arith::lemma_gcd_symmetric(g, den);
    crate::arith::lemma_coprime_factor(c, d0, g);
    crate::arith::lemma_coprime_factor(d0, c, g);
    lemma_embedding_law(g, num, den);
    lemma_mod_bound((((num % gi) as nat) * crate::arith::mod_inverse(den, g)) as int, gi);
    let k = crate::arith::lemma_congruent_difference((den * x) as int, num, gi);
    assert(c * (d0 * x - n0) == gi * k) by (nonlinear_arith)
        requires
            den * x - num == gi * k,
            num == c * n0,
            den == c * d0,
    ;
    crate::arith::lemma_cancel(g, c, d0 * x - n0, k);
    crate::hensel_code::lemma_embedding_unique(g, n0, d0, x);
    let m = lemma_round_trip(g, n0, d0);
    let out = reconstruct(g, g, x, 0, 1, false);
    assert(signed(out.0, out.2) * den == num * out.1) by (nonlinear_arith)
        requires
            n0 == m * signed(out.0, out.2),
            d0 == m * out.1,
            num == c * n0,
            den == c * d0,
    ;
}

impl<const L: usize> Rational<L> {
    /// The product of two fractions, where numerator and denominator fit the
    /// width.
    pub fn mul(&self, other: &Self) -> (r: Self)
        requires
            self.num@ * other.num@ < capacity(L as nat),
            self.denom@ * other.denom@ < capacity(L as nat),
        ensures
            r.num@ == self.num@ * other.num@,
            r.denom@ == self.denom@ * other.denom@,
            r.negative == (self.negative != other.negative),
            r.signed_num() == self.signed_num() * other.signed_num(),
    {
        let num = self.num.mul(&other.num);
        let denom = self.denom.mul(&other.denom);
        let negative = self.negative != other.negative;
        proof {
            let (a, c) = (self.num@ as int, other.num@ as int);
            assert((-a) * c == -(a * c) && a * (-c) == -(a * c) && (-a) * (-c) == a * c)
                by (nonlinear_arith);
        }
        Rational { num, denom, negative }
    }

    /// The sum of two fractions over the product of their denominators, where
    /// the cross products, their sum and the denominator fit the width.
    pub fn add(&self, other: &Self) -> (r: Self)
        requires
            self.num@ * other.denom@ + other.num@ * self.denom@ < capacity(L as nat),
            self.denom@ * other.denom@ < capacity(L as nat),
        ensures
            r.signed_num() == self.signed_num() * other.denom@ + other.signed_num() * self.denom@,
            r.denom@ == self.denom@ * other.denom@,
    {
        proof {
            let (a, b) = (self.num@ as int, self.denom@ as int);
            let (c, d) = (other.num@ as int, other.denom@ as int);
            assert(a * d >= 0 && c * b >= 0 && (-a) * d == -(a * d) && (-c) * b == -(c * b))
                by (nonlinear_arith)
                requires
                    a >= 0,
                    b >= 0,
                    c >= 0,
                    d >= 0,
            ;
        }
        let left = self.num.mul(&other.denom);
        let right = other.num.mul(&self.denom);
        let denom = self.denom.mul(&other.denom);
        if self.negative == other.negative {
            Rational { num: left.add(&right), denom, negative: self.negative }
        } else if left.less_than(&right) {
            Rational { num: right.sub(&left), denom, negative: other.negative }
        } else {
            Rational { num: left.sub(&right), denom, negative: self.negative }
        }
    }

    /// The small fraction that a Hensel code stands for: the extended
    /// Euclidean algorithm on modulus and residue, stopped at the first
    /// remainder whose doubled square lies below the modulus. The denominator
    /// is positive, and times the residue it is congruent to the numerator.
    pub fn from_hensel(hc: &HenselCode<L>) -> (r: Self)
        requires
            hc.wf(),
        ensures
            (r.num@, r.denom@, r.negative) == reconstruct(hc@.0, hc@.0, hc@.1, 0, 1, false),
            1 <= r.denom@ <= hc@.0,
            r.num@ <= hc@.1,
            2 * r.num@ * r.num@ < hc@.0,
            (r.denom@ * hc@.1 - r.signed_num()) % (hc@.0 as int) == 0,
    {
        let g = hc.modulus();
        let n = hc.to_bigint();
        proof {
            lemma_value_bound(g.words@);
            lemma_value_bound(n.words@);
        }
        let two = BigInt::<L>::from_u64(2);
        let (half, _) = g.div_rem(&two);
        let mut r0 = g;
        let mut r1 = n;
        let mut u0 = BigInt::<L>::zero();
        let mut u1 = BigInt::<L>::from_u64(1);
        let mut negative = false;
        let ghost mut k0: int = -1;
        let ghost mut k1: int = 0;
        proof {
            assert(0 * n@ - g@ == -1 * (g@ as int)) by (nonlinear_arith);
            assert(1 * n@ - n@ == 0 * (g@ as int)) by (nonlinear_arith);
            assert(0 * n@ + 1 * g@ == g@) by (nonlinear_arith);
        }
        loop
            invariant
                g@ == hc@.0,
                n@ == hc@.1,
                half@ == g@ / 2,
                g@ % 2 == 1,
                g@ < capacity(L as nat),
                r1@ <= n@,
                r1@ < r0@,
                1 <= u1@ <= g@,
                u0@ * r1@ + u1@ * r0@ == g@,
                signed(u1@, negative) * n@ - r1@ == k1 * g@,
                signed(u0@, !negative) * n@ - r0@ == k0 * g@,
                reconstruct(g@, r0@, r1@, u0@, u1@, negative) == reconstruct(g@, g@, n@, 0, 1, false),
            ensures
                r1@ == 0 || 2 * r1@ * r1@ < g@,
            decreases r1@,
        {
            if r1.is_zero() {
                break ;
            }
            let (bound, _) = half.div_rem(&r1);
            proof {
                lemma_square_bound(r1@, g@);
            }
            if !bound.less_than(&r1) {
                break ;
            }
            let (q, m) = r0.div_rem(&r1);
            proof {
                lemma_euclid_bounds(g@, r0@, r1@, u0@, u1@);
                lemma_euclid_step(g@, n@, r0@, r1@, u0@, u1@, negative, k0, k1);
                lemma_mod_bound(r0@ as int, r1@ as int);
            }
            let ghost k2 = k0 - q@ * k1;
            let u2 = u0.add(&q.mul(&u1));
            proof {
                k0 = k1;
                k1 = k2;
            }
            r0 = r1;
            r1 = m;
            u0 = u1;
            u1 = u2;
            negative = !negative;
        }
        proof {
            let t = signed(u1@, negative);
            assert(u1@ * n@ - signed(r1@, negative) == if negative {
                -k1 * g@
            } else {
                k1 * g@
            }) by (nonlinear_arith)
                requires
                    t * n@ - r1@ == k1 * g@,
                    t == signed(u1@, negative),
            ;
            vstd::arithmetic::div_mod::lemma_mod_multiples_basic(k1, g@ as int);
            vstd::arithmetic::div_mod::lemma_mod_multiples_basic(-k1, g@ as int);
        }
        Rational { num: r1, denom: u1, negative }
    }
}

} // verus!
