//! Modular arithmetic on mathematical integers: inverses, the Chinese
//! remainder formula, and the lemmas that the residue types rest on.

use vstd::prelude::*;
use vstd::arithmetic::div_mod::{
    lemma_add_mod_noop, lemma_mod_bound, lemma_mod_mod, lemma_mod_multiples_basic,
    lemma_mul_mod_noop_general, lemma_small_mod,
};
use crate::bigint::gcd;

verus! {

/// Whether `x` is the inverse of `a` among the residues modulo `m`.
pub open spec fn is_inverse(a: nat, m: nat, x: nat) -> bool {
    x < m && (a * x) % m == 1
}

/// The inverse of `a` modulo `m`, where there is one.
pub open spec fn mod_inverse(a: nat, m: nat) -> nat {
    choose|x: nat| is_inverse(a, m, x)
}

/// The residue modulo `g1 * g2` that the Chinese remainder formula gives for
/// `n1` modulo `g1` and `n2` modulo `g2`.
pub open spec fn crt_value(g1: nat, n1: nat, g2: nat, n2: nat) -> nat {
    (g1 * mod_inverse(g1, g2) * n2 + g2 * mod_inverse(g2, g1) * n1) % (g1 * g2)
}

/// The greatest common divisor does not depend on the order of its arguments.
pub proof fn lemma_gcd_symmetric(a: nat, b: nat)
    ensures
        gcd(a, b) == gcd(b, a),
{
    reveal_with_fuel(gcd, 3);
    if a == 0 || b == 0 {
    } else if a < b {
        lemma_small_mod(a, b);
    } else if b < a {
        lemma_small_mod(b, a);
    }
}

/// A residue has at most one inverse.
pub proof fn lemma_inverse_unique(a: nat, m: nat, x: nat, y: nat)
    requires
        is_inverse(a, m, x),
        is_inverse(a, m, y),
    ensures
        x == y,
{
    let m_ = m as int;
    assert(x * (a * y) == (a * x) * y) by (nonlinear_arith);
    lemma_mul_mod_noop_general(x as int, (a * y) as int, m_);
    lemma_mul_mod_noop_general((a * x) as int, y as int, m_);
    lemma_small_mod(x, m);
    lemma_small_mod(y, m);
    assert(x * 1 == x);
    assert(1 * y == y);
}

/// Coefficients `(s, t)` with `s * a + t * b == gcd(a, b)`.
pub proof fn lemma_bezout(a: nat, b: nat) -> (c: (int, int))
    ensures
        c.0 * a + c.1 * b == gcd(a, b),
    decreases b,
{
    if b == 0 {
        (1, 0)
    } else {
        let (s, t) = lemma_bezout(b, a % b);
        let q = (a / b) as int;
        vstd::arithmetic::div_mod::lemma_fundamental_div_mod(a as int, b as int);
        assert(t * a + (s - t * q) * b == s * b + t * (a % b)) by (nonlinear_arith)
            requires
                a == b * q + a % b,
        ;
        (t, s - t * q)
    }
}

/// A number coprime to the modulus has an inverse, and `mod_inverse` is it.
pub proof fn lemma_inverse_exists(a: nat, m: nat)
    requires
        m > 1,
        gcd(a, m) == 1,
    ensures
        is_inverse(a, m, mod_inverse(a, m)),
{
    let (s, t) = lemma_bezout(a, m);
    let mi = m as int;
    let x = (s % mi) as nat;
    lemma_mod_bound(s, mi);
    lemma_mul_mod_noop_general(a as int, s, mi);
    assert(a * s == mi * (-t) + 1) by (nonlinear_arith)
        requires
            s * a + t * mi == 1,
    ;
    vstd::arithmetic::div_mod::lemma_mod_multiples_vanish(-t, 1, mi);
    lemma_small_mod(1, m);
    assert(is_inverse(a, m, x));
}

/// The greatest common divisor divides both numbers: the quotients.
pub proof fn lemma_gcd_divides(a: nat, b: nat) -> (k: (nat, nat))
    ensures
        a == k.0 * gcd(a, b),
        b == k.1 * gcd(a, b),
    decreases b,
{
    if b == 0 {
        assert(a == 1 * a && 0 == 0 * a) by (nonlinear_arith);
        (1, 0)
    } else {
        let (kb, km) = lemma_gcd_divides(b, a % b);
        let d = gcd(a, b);
        let q = a / b;
        vstd::arithmetic::div_mod::lemma_fundamental_div_mod(a as int, b as int);
        assert(a == (q * kb + km) * d) by (nonlinear_arith)
            requires
                a == b * q + a % b,
                b == kb * d,
                a % b == km * d,
        ;
        (q * kb + km, kb)
    }
}

/// Two numbers of which a combination is 1 are coprime.
pub proof fn lemma_coprime_from_combination(a: nat, b: nat, s: int, t: int)
    requires
        s * a + t * b == 1,
    ensures
        gcd(a, b) == 1,
{
    let (ka, kb) = lemma_gcd_divides(a, b);
    let d = gcd(a, b);
    assert((s * ka + t * kb) * d == 1) by (nonlinear_arith)
        requires
            s * a + t * b == 1,
            a == ka * d,
            b == kb * d,
    ;
    assert(d == 1) by (nonlinear_arith)
        requires
            (s * ka + t * kb) * d == 1,
            d >= 0,
    ;
}

/// A factor of a number coprime to `b` is coprime to `b`.
pub proof fn lemma_coprime_factor(a: nat, c: nat, b: nat)
    requires
        gcd(a * c, b) == 1,
    ensures
        gcd(a, b) == 1,
        gcd(b, a) == 1,
{
    let (s, t) = lemma_bezout(a * c, b);
    assert((s * c) * a + t * b == 1) by (nonlinear_arith)
        requires
            s * (a * c) + t * b == 1,
    ;
    lemma_coprime_from_combination(a, b, s * c, t);
    lemma_gcd_symmetric(a, b);
}

/// A number coprime to the modulus can be cancelled: where its product with
/// `z` is a multiple of the modulus, so is `z`.
pub proof fn lemma_cancel(m: nat, t: nat, z: int, k: int)
    requires
        m >= 1,
        gcd(m, t) == 1,
        t * z == m * k,
    ensures
        z % (m as int) == 0,
{
    let (a, b) = lemma_bezout(m, t);
    assert(z == (a * z + b * k) * m) by (nonlinear_arith)
        requires
            a * m + b * t == 1,
            t * z == m * k,
    ;
    lemma_mod_multiples_basic(a * z + b * k, m as int);
}

/// Two congruent numbers differ by a multiple of the modulus: the factor.
pub proof fn lemma_congruent_difference(a: int, b: int, m: int) -> (k: int)
    requires
        m > 0,
        a % m == b % m,
    ensures
        a - b == m * k,
{
    vstd::arithmetic::div_mod::lemma_mod_equivalence(a, b, m);
    vstd::arithmetic::div_mod::lemma_fundamental_div_mod(a - b, m);
    (a - b) / m
}

/// What `is_inverse` finds is `mod_inverse`.
pub proof fn lemma_inverse_is_mod_inverse(a: nat, m: nat, x: nat)
    requires
        is_inverse(a, m, x),
    ensures
        x == mod_inverse(a, m),
{
    lemma_inverse_unique(a, m, x, mod_inverse(a, m));
}

/// The product of two odd moduli is an odd modulus.
pub proof fn lemma_odd_product(a: nat, b: nat)
    requires
        a >= 3 && a % 2 == 1,
        b >= 3 && b % 2 == 1,
    ensures
        a * b >= 9,
        (a * b) % 2 == 1,
{
    assert(a * b >= 9) by (nonlinear_arith)
        requires
            a >= 3,
            b >= 3,
    ;
    lemma_mul_mod_noop_general(a as int, b as int, 2);
    assert(1 * 1 == 1);
}

/// One half of the Chinese remainder theorem: with `i1` inverse to `g1`
/// modulo `g2` and `i2` inverse to `g2` modulo `g1`, the formula's value is
/// congruent to `n1` modulo `g1`.
pub proof fn lemma_crt_first(g1: nat, n1: nat, g2: nat, n2: nat, i1: nat, i2: nat)
    requires
        g1 > 1,
        g2 > 1,
        n1 < g1,
        (g2 * i2) % g1 == 1,
    ensures
        ((g1 * i1 * n2 + g2 * i2 * n1) % (g1 * g2)) % g1 == n1,
{
    let x = g1 * i1 * n2 + g2 * i2 * n1;
    lemma_mod_mod(x as int, g1 as int, g2 as int);
    assert(g1 * i1 * n2 == (i1 * n2) * g1) by (nonlinear_arith);
    lemma_mod_multiples_basic((i1 * n2) as int, g1 as int);
    lemma_add_mod_noop((g1 * i1 * n2) as int, (g2 * i2 * n1) as int, g1 as int);
    lemma_mul_mod_noop_general((g2 * i2) as int, n1 as int, g1 as int);
    assert(1 * n1 == n1);
    lemma_small_mod(n1, g1);
    assert((g2 * i2 * n1) % g1 == n1);
    assert(x % g1 == (0 + n1 as int) % (g1 as int));
}

/// The other half: the formula's value is congruent to `n2` modulo `g2`.
pub proof fn lemma_crt_second(g1: nat, n1: nat, g2: nat, n2: nat, i1: nat, i2: nat)
    requires
        g1 > 1,
        g2 > 1,
        n2 < g2,
        (g1 * i1) % g2 == 1,
    ensures
        ((g1 * i1 * n2 + g2 * i2 * n1) % (g1 * g2)) % g2 == n2,
{
    lemma_crt_first(g2, n2, g1, n1, i2, i1);
    assert(g1 * g2 == g2 * g1) by (nonlinear_arith);
}

} // verus!
