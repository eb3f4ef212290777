//! Hensel codes: a residue together with its odd modulus.

use vstd::prelude::*;
use vstd::arithmetic::div_mod::{
    lemma_add_mod_noop, lemma_fundamental_div_mod, lemma_mod_bound, lemma_mod_multiples_vanish,
    lemma_mul_mod_noop_general, lemma_small_mod,
};
use crate::arith::{
    crt_value, is_inverse, lemma_crt_first, lemma_crt_second, lemma_gcd_symmetric,
    lemma_inverse_exists, lemma_inverse_is_mod_inverse, lemma_odd_product, mod_inverse,
};
use crate::bigint::{
    capacity, gcd, odd_modulus, residue_add, residue_invert, residue_mul, residue_reduce, BigInt,
};
use crate::rational::Rational;

verus! {

/// An element of the integers modulo `modulus`, kept as its least residue.
#[derive(Clone, Copy, Debug)]
pub struct HenselCode<const L: usize> {
    modulus: BigInt<L>,
    residue: BigInt<L>,
}

impl<const L: usize> View for HenselCode<L> {
    type V = (nat, nat);

    /// The modulus, then the residue.
    closed spec fn view(&self) -> (nat, nat) {
        (self.modulus@, self.residue@)
    }
}

/// The residue modulo `g` that stands for the fraction `num / den`: `num`
/// times the inverse of `den`, or zero where `den` has no inverse.
pub open spec fn embed_value(g: nat, num: int, den: nat) -> nat {
    if gcd(g, den) != 1 {
        0
    } else {
        (((num % (g as int)) as nat) * mod_inverse(den, g)) % g
    }
}

impl<const L: usize> HenselCode<L> {
    /// The modulus is odd and at least 3, and the residue lies below it.
    pub open spec fn wf(&self) -> bool {
        odd_modulus(self@.0) && self@.1 < self@.0
    }

    /// The residue.
    pub fn to_bigint(&self) -> (r: BigInt<L>)
        ensures
            r@ == self@.1,
    {
        self.residue
    }

    /// The modulus.
    pub fn modulus(&self) -> (r: BigInt<L>)
        ensures
            r@ == self@.0,
    {
        self.modulus
    }

    /// The zero of the integers modulo `modulus`.
    pub fn generate_zero(modulus: &BigInt<L>) -> (hc: HenselCode<L>)
        requires
            odd_modulus(modulus@),
        ensures
            hc.wf(),
            hc@ == (modulus@, 0nat),
    {
        let zero = BigInt::<L>::zero();
        let residue = residue_reduce(modulus, &zero);
        proof {
            lemma_small_mod(0, modulus@);
        }
        HenselCode { modulus: *modulus, residue }
    }

    /// The inverse of an element that is coprime to the modulus.
    pub fn invert(&self) -> (hc: HenselCode<L>)
        requires
            self.wf(),
            gcd(self@.1, self@.0) == 1,
        ensures
            hc.wf(),
            hc@ == (self@.0, mod_inverse(self@.1, self@.0)),
            (self@.1 * hc@.1) % self@.0 == 1,
    {
        let residue = residue_invert(&self.modulus, &self.residue);
        proof {
            lemma_inverse_is_mod_inverse(self.residue@, self.modulus@, residue@);
        }
        HenselCode { modulus: self.modulus, residue }
    }

    /// The sum of two elements of the same ring.
    pub fn add(&self, other: &HenselCode<L>) -> (hc: HenselCode<L>)
        requires
            self.wf(),
            other.wf(),
            self@.0 == other@.0,
        ensures
            hc.wf(),
            hc@ == (self@.0, (self@.1 + other@.1) % self@.0),
    {
        let residue = residue_add(&self.modulus, &self.residue, &other.residue);
        proof {
            lemma_mod_bound((self@.1 + other@.1) as int, self@.0 as int);
        }
        HenselCode { modulus: self.modulus, residue }
    }

    /// The product of two elements of the same ring.
    pub fn mul(&self, other: &HenselCode<L>) -> (hc: HenselCode<L>)
        requires
            self.wf(),
            other.wf(),
            self@.0 == other@.0,
        ensures
            hc.wf(),
            hc@ == (self@.0, (self@.1 * other@.1) % self@.0),
    {
        let residue = residue_mul(&self.modulus, &self.residue, &other.residue);
        proof {
            lemma_mod_bound((self@.1 * other@.1) as int, self@.0 as int);
        }
        HenselCode { modulus: self.modulus, residue }
    }

    /// The element modulo `g` for the fraction `num / den` where `den` divides
    /// both `g` and `num`: the quotient of `num` by `den`, reduced by the
    /// quotient of `g` by `den`. The general embedding would give zero here.
    pub fn from_aligned(g: &BigInt<L>, num: &BigInt<L>, den: &BigInt<L>) -> (hc: HenselCode<L>)
        requires
            odd_modulus(g@),
            1 <= den@ <= g@,
            num@ % den@ == 0,
        ensures
            hc.wf(),
            hc@ == (g@, (num@ / den@) % (g@ / den@)),
    {
        let (quotient, _) = num.div_rem(den);
        let (cofactor, _) = g.div_rem(den);
        proof {
            vstd::arithmetic::div_mod::lemma_div_non_zero(g@ as int, den@ as int);
            vstd::arithmetic::div_mod::lemma_div_nonincreasing(g@ as int, den@ as int);
            lemma_mod_bound(quotient@ as int, cofactor@ as int);
        }
        let (_, residue) = quotient.div_rem(&cofactor);
        HenselCode { modulus: *g, residue }
    }

    /// The residue modulo `g` that stands for the fraction `r`: its numerator
    /// times the inverse of its denominator, and zero where the denominator
    /// and `g` have a common factor.
    pub fn from_rational(g: &BigInt<L>, r: &Rational<L>) -> (hc: HenselCode<L>)
        requires
            odd_modulus(g@),
        ensures
            hc.wf(),
            hc@ == (g@, embed_value(g@, r.signed_num(), r.denom@)),
            gcd(g@, r.denom@) != 1 ==> hc@.1 == 0,
            gcd(g@, r.denom@) == 1 ==> ((r.denom@ * hc@.1) as int) % (g@ as int) == r.signed_num() % (
            g@ as int),
    {
        let d = BigInt::gcd(g, &r.denom);
        if !d.equals(&BigInt::from_u64(1)) {
            return Self::generate_zero(g);
        }
        proof {
            lemma_gcd_symmetric(g@, r.denom@);
        }
        let inv = residue_invert(g, &r.denom);
        let low = residue_reduce(g, &r.num);
        let n = if r.negative && !low.is_zero() {
            g.sub(&low)
        } else {
            low
        };
        let residue = residue_mul(g, &n, &inv);
        proof {
            lemma_inverse_is_mod_inverse(r.denom@, g@, inv@);
            lemma_mod_bound((n@ * inv@) as int, g@ as int);
            lemma_mod_bound(r.num@ as int, g@ as int);
            lemma_signed_residue(g@, r.num@, r.negative);
            lemma_embedding_law(g@, r.signed_num(), r.denom@);
        }
        HenselCode { modulus: *g, residue }
    }
}

/// The least residue of a number given by magnitude and sign.
pub proof fn lemma_signed_residue(g: nat, magnitude: nat, negative: bool)
    requires
        g > 0,
    ensures
        crate::rational::signed(magnitude, negative) % (g as int) == if negative && magnitude % g
            != 0 {
            g - magnitude % g
        } else {
            (magnitude % g) as int
        },
{
    if negative {
        let gi = g as int;
        let m = magnitude as int;
        lemma_fundamental_div_mod(m, gi);
        lemma_mod_bound(m, gi);
        if m % gi != 0 {
            lemma_mod_multiples_vanish(-(m / gi) - 1, gi - m % gi, gi);
            assert(gi * (-(m / gi) - 1) + (gi - m % gi) == -m) by (nonlinear_arith)
                requires
                    m == gi * (m / gi) + m % gi,
            ;
            lemma_small_mod((gi - m % gi) as nat, g);
        } else {
            lemma_mod_multiples_vanish(-(m / gi), 0, gi);
            assert(gi * (-(m / gi)) + 0 == -m) by (nonlinear_arith)
                requires
                    m == gi * (m / gi) + m % gi,
                    m % gi == 0,
            ;
            lemma_small_mod(0, g);
        }
    }
}

/// The element of the integers modulo `g` that `n` stands for, where `n` is
/// first cut to the width of `g`.
pub fn new_hensel_code<const LG: usize, const LN: usize>(g: &BigInt<LG>, n: &BigInt<LN>) -> (hc:
    HenselCode<LG>)
    requires
        odd_modulus(g@),
    ensures
        hc.wf(),
        hc@ == (g@, (n@ % capacity(LG as nat)) % g@),
{
    let cut = n.resize::<LG>();
    let residue = residue_reduce(g, &cut);
    proof {
        lemma_mod_bound(cut@ as int, g@ as int);
    }
    HenselCode { modulus: *g, residue }
}

/// The element modulo `g1 * g2` that is `hc1` modulo `g1` and `hc2` modulo
/// `g2`, for coprime moduli whose product fits the width.
pub fn chinese_remainder<const L: usize>(hc1: HenselCode<L>, hc2: HenselCode<L>) -> (hc:
    HenselCode<L>)
    requires
        hc1.wf(),
        hc2.wf(),
        gcd(hc1@.0, hc2@.0) == 1,
        hc1@.0 * hc2@.0 < capacity(L as nat),
    ensures
        hc.wf(),
        hc@ == (hc1@.0 * hc2@.0, crt_value(hc1@.0, hc1@.1, hc2@.0, hc2@.1)),
        hc@.1 % hc1@.0 == hc1@.1,
        hc@.1 % hc2@.0 == hc2@.1,
{
    let (g1, n1) = (hc1.modulus(), hc1.to_bigint());
    let (g2, n2) = (hc2.modulus(), hc2.to_bigint());
    let g12 = g1.mul(&g2);
    proof {
        lemma_odd_product(g1@, g2@);
        lemma_gcd_symmetric(g1@, g2@);
    }
    let i1 = residue_invert(&g2, &g1);
    let i2 = residue_invert(&g1, &g2);
    let a1 = residue_mul(&g12, &g1, &i1);
    let a = residue_mul(&g12, &a1, &n2);
    let b1 = residue_mul(&g12, &g2, &i2);
    let b = residue_mul(&g12, &b1, &n1);
    let residue = residue_add(&g12, &a, &b);
    proof {
        let m = g12@ as int;
        lemma_inverse_is_mod_inverse(g1@, g2@, i1@);
        lemma_inverse_is_mod_inverse(g2@, g1@, i2@);
        lemma_mul_mod_noop_general((g1@ * i1@) as int, n2@ as int, m);
        lemma_mul_mod_noop_general((g2@ * i2@) as int, n1@ as int, m);
        lemma_add_mod_noop((g1@ * i1@ * n2@) as int, (g2@ * i2@ * n1@) as int, m);
        lemma_mod_bound((a@ + b@) as int, m);
        lemma_crt_first(g1@, n1@, g2@, n2@, i1@, i2@);
        lemma_crt_second(g1@, n1@, g2@, n2@, i1@, i2@);
    }
    HenselCode { modulus: g12, residue }
}

/// The Chinese remainder of two elements does not depend on their order.
pub proof fn lemma_crt_order(g1: nat, n1: nat, g2: nat, n2: nat)
    ensures
        crt_value(g1, n1, g2, n2) == crt_value(g2, n2, g1, n1),
{
    assert(g1 * g2 == g2 * g1) by (nonlinear_arith);
}

/// The Chinese remainder theorem for two coprime moduli: the combined
/// residue lies below the product of the moduli and leaves the two given
/// residues, whichever of the two comes first.
pub proof fn lemma_crt_sound(g1: nat, n1: nat, g2: nat, n2: nat)
    requires
        odd_modulus(g1),
        odd_modulus(g2),
        n1 < g1,
        n2 < g2,
        gcd(g1, g2) == 1,
    ensures
        crt_value(g1, n1, g2, n2) < g1 * g2,
        crt_value(g1, n1, g2, n2) % g1 == n1,
        crt_value(g1, n1, g2, n2) % g2 == n2,
        crt_value(g2, n2, g1, n1) == crt_value(g1, n1, g2, n2),
{
    lemma_gcd_symmetric(g1, g2);
    lemma_inverse_exists(g1, g2);
    lemma_inverse_exists(g2, g1);
    lemma_odd_product(g1, g2);
    let i1 = mod_inverse(g1, g2);
    let i2 = mod_inverse(g2, g1);
    lemma_mod_bound((g1 * i1 * n2 + g2 * i2 * n1) as int, (g1 * g2) as int);
    lemma_crt_first(g1, n1, g2, n2, i1, i2);
    lemma_crt_second(g1, n1, g2, n2, i1, i2);
    lemma_crt_order(g1, n1, g2, n2);
}

/// The embedding is the only residue that, times the denominator, is
/// congruent to the numerator.
pub proof fn lemma_embedding_unique(g: nat, num: int, den: nat, x: nat)
    requires
        odd_modulus(g),
        gcd(g, den) == 1,
        x < g,
        (den * x - num) % (g as int) == 0,
    ensures
        x == embed_value(g, num, den),
{
    let gi = g as int;
    let e = embed_value(g, num, den);
    lemma_embedding_law(g, num, den);
    lemma_mod_bound((((num % gi) as nat) * mod_inverse(den, g)) as int, gi);
    vstd::arithmetic::div_mod::lemma_mod_equivalence((den * e) as int, num, gi);
    let a = den * x - num;
    let b = den * e - num;
    lemma_fundamental_div_mod(a, gi);
    lemma_fundamental_div_mod(b, gi);
    let k = a / gi - b / gi;
    assert(den * (x - e) == gi * k) by (nonlinear_arith)
        requires
            den * x - num == gi * (a / gi),
            den * e - num == gi * (b / gi),
            k == a / gi - b / gi,
    ;
    crate::arith::lemma_cancel(g, den, x - e, k);
    if x >= e {
        lemma_small_mod((x - e) as nat, g);
    } else {
        assert(den * (e - x) == gi * (-k)) by (nonlinear_arith)
            requires
                den * (x - e) == gi * k,
        ;
        crate::arith::lemma_cancel(g, den, e - x, -k);
        lemma_small_mod((e - x) as nat, g);
    }
}

/// The degenerate embedding: a denominator that shares a factor with the
/// modulus gives the residue zero.
pub proof fn lemma_embedding_degenerate(g: nat, num: int, den: nat)
    requires
        gcd(g, den) != 1,
    ensures
        embed_value(g, num, den) == 0,
{
}

/// The embedding's law: where the denominator is coprime to the modulus, the
/// residue is the numerator times the inverse of the denominator, so that
/// the residue times the denominator is congruent to the numerator.
pub proof fn lemma_embedding_law(g: nat, num: int, den: nat)
    requires
        odd_modulus(g),
        gcd(g, den) == 1,
    ensures
        is_inverse(den, g, mod_inverse(den, g)),
        embed_value(g, num, den) == (((num % (g as int)) as nat) * mod_inverse(den, g)) % g,
        ((den * embed_value(g, num, den)) as int) % (g as int) == num % (g as int),
{
    lemma_gcd_symmetric(g, den);
    lemma_inverse_exists(den, g);
    let gi = g as int;
    let inv = mod_inverse(den, g);
    let n = (num % gi) as nat;
    lemma_mod_bound(num, gi);
    lemma_mul_mod_noop_general(den as int, (n * inv) as int, gi);
    assert(den * (n * inv) == (den * inv) * n) by (nonlinear_arith);
    lemma_mul_mod_noop_general((den * inv) as int, n as int, gi);
    assert(1 * n == n);
    lemma_small_mod(n, g);
}

} // verus!
