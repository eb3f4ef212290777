//! The private key of the scheme, with encryption and decryption.

use vstd::prelude::*;
use vstd::arithmetic::div_mod::{
    lemma_fundamental_div_mod, lemma_mod_bound, lemma_mod_mod, lemma_small_mod,
};
use crate::arith::{
    crt_value, lemma_cancel, lemma_congruent_difference, lemma_coprime_factor,
    lemma_gcd_symmetric, lemma_odd_product,
};
use crate::bigint::{capacity, gcd, lemma_value_bound, odd_modulus, BigInt};
use crate::hensel_code::{embed_value, lemma_embedding_law, lemma_embedding_unique, HenselCode};
use crate::rational::{lemma_round_trip, reconstruct, same_fraction, signed, Rational};

verus! {

/// The five numbers of a key, as mathematical integers.
pub struct Primes {
    pub p1: nat,
    pub p2: nat,
    pub p3: nat,
    pub p4: nat,
    pub p5: nat,
}

impl Primes {
    /// The modulus of the noise: `p1 * p2 * p3`.
    pub open spec fn noise_modulus(self) -> nat {
        self.p1 * self.p2 * self.p3
    }

    /// The bound of the blinding factor: `p1 * p2 * p3 * p5`.
    pub open spec fn delta_bound(self) -> nat {
        self.p1 * self.p2 * self.p3 * self.p5
    }

    /// The modulus of the ciphertexts: the product of all five.
    pub open spec fn modulus(self) -> nat {
        self.p1 * self.p2 * self.p3 * self.p5 * self.p4
    }

    /// What the operations of a key need of its numbers: each is odd and at
    /// least 3, the first three are coprime so that their remainders combine,
    /// and the product of all five fits `width` words. A key of five distinct
    /// odd primes whose product fits has all of this.
    pub open spec fn valid(self, width: nat) -> bool {
        &&& odd_modulus(self.p1)
        &&& odd_modulus(self.p2)
        &&& odd_modulus(self.p3)
        &&& odd_modulus(self.p4)
        &&& odd_modulus(self.p5)
        &&& gcd(self.p1, self.p2) == 1
        &&& gcd(self.p1 * self.p2, self.p3) == 1
        &&& self.modulus() < capacity(width)
    }

    /// The residue modulo `p1 * p2 * p3` with the remainders `n1`, `n2`, `n3`.
    pub open spec fn crt3(self, n1: nat, n2: nat, n3: nat) -> nat {
        crt_value(
            self.p1 * self.p2,
            crt_value(self.p1, n1 % self.p1, self.p2, n2 % self.p2),
            self.p3,
            n3 % self.p3,
        )
    }

    /// Whether the intermediate fractions of an encryption of `num / den` fit
    /// `width` words.
    pub open spec fn fits(self, num: nat, den: nat, width: nat) -> bool {
        &&& den >= 1
        &&& self.p1 * (self.p1 * self.noise_modulus()) * den + num * self.noise_modulus()
            < capacity(width)
    }

    /// The noise of an encryption as a fraction: what the remainders `0`,
    /// `s2`, `s3`, divided by `p1`, stand for modulo `p1 * p2 * p3`.
    pub open spec fn noise(self, s2: nat, s3: nat) -> (nat, nat, bool) {
        let q = self.noise_modulus();
        let aligned = (self.crt3(0, s2, s3) / self.p1) % (q / self.p1);
        reconstruct(q, q, aligned, 0, 1, false)
    }

    /// The fraction that an encryption embeds, numerator and denominator:
    /// `s1 * p1` times the noise, plus `num / den`.
    pub open spec fn term(self, num: int, den: nat, s1: nat, s2: nat, s3: nat) -> (int, nat) {
        let noise = self.noise(s2, s3);
        (
            (s1 * (self.p1 * signed(noise.0, noise.2))) * den + num * noise.1,
            noise.1 * den,
        )
    }

    /// The ciphertext of the fraction `num / den` under the random choices
    /// `s1`, `s2`, `s3` and `delta`.
    pub open spec fn encrypt_value(
        self,
        num: int,
        den: nat,
        s1: nat,
        s2: nat,
        s3: nat,
        delta: nat,
    ) -> nat {
        let g = self.modulus();
        let term = self.term(num, den, s1, s2, s3);
        (embed_value(g, term.0, term.1) + (delta * self.p4) % g) % g
    }

    /// The fraction that decryption reads out of the residue `n`: numerator,
    /// denominator and sign.
    pub open spec fn decrypt_value(self, n: nat) -> (nat, nat, bool) {
        let first = reconstruct(self.p4, self.p4, n % self.p4, 0, 1, false);
        let again = embed_value(self.p1, signed(first.0, first.2), first.1);
        reconstruct(self.p1, self.p1, again, 0, 1, false)
    }
}

/// A private key: five distinct odd primes.
#[derive(Clone, Copy, Debug)]
pub struct CryptographicParameters<const L: usize> {
    p1: BigInt<L>,
    p2: BigInt<L>,
    p3: BigInt<L>,
    p4: BigInt<L>,
    p5: BigInt<L>,
}

impl<const L: usize> View for CryptographicParameters<L> {
    type V = Primes;

    closed spec fn view(&self) -> Primes {
        Primes { p1: self.p1@, p2: self.p2@, p3: self.p3@, p4: self.p4@, p5: self.p5@ }
    }
}

/// The partial products of a valid key fit its width and are odd moduli.
pub proof fn lemma_partial_products(k: Primes, width: nat)
    requires
        k.valid(width),
    ensures
        odd_modulus(k.p1 * k.p2),
        odd_modulus(k.noise_modulus()),
        odd_modulus(k.delta_bound()),
        odd_modulus(k.modulus()),
        k.p1 * k.p2 <= k.noise_modulus() <= k.delta_bound() <= k.modulus(),
        k.p1 <= k.p1 * k.p2,
        k.p2 * k.p3 * k.p4 * k.p5 <= k.modulus(),
        k.p2 * k.p3 <= k.p2 * k.p3 * k.p4 <= k.p2 * k.p3 * k.p4 * k.p5,
{
    lemma_odd_product(k.p1, k.p2);
    lemma_odd_product(k.p1 * k.p2, k.p3);
    lemma_odd_product(k.p1 * k.p2 * k.p3, k.p5);
    lemma_odd_product(k.p1 * k.p2 * k.p3 * k.p5, k.p4);
    lemma_grows(k.p1, k.p2);
    lemma_grows(k.p1 * k.p2, k.p3);
    lemma_grows(k.p1 * k.p2 * k.p3, k.p5);
    lemma_grows(k.p1 * k.p2 * k.p3 * k.p5, k.p4);
    lemma_grows(k.p2 * k.p3, k.p4);
    lemma_grows(k.p2 * k.p3 * k.p4, k.p5);
    lemma_grows(k.p2 * k.p3 * k.p4 * k.p5, k.p1);
    assert(k.p2 * k.p3 * k.p4 * k.p5 * k.p1 == k.p1 * k.p2 * k.p3 * k.p5 * k.p4)
        by (nonlinear_arith);
}

/// A product by a positive number is no smaller than the other factor.
pub proof fn lemma_grows(a: nat, b: nat)
    requires
        b >= 1,
    ensures
        a <= a * b,
{
    assert(a <= a * b) by (nonlinear_arith)
        requires
            b >= 1,
    ;
}

/// A product grows with both of its factors.
pub proof fn lemma_product_bound(a: nat, b: nat, c: nat, d: nat)
    requires
        a <= c,
        b <= d,
    ensures
        a * b <= c * d,
{
    assert(a * b <= c * d) by (nonlinear_arith)
        requires
            a <= c,
            b <= d,
    ;
}

/// The blinding vanishes modulo `p4`: a ciphertext reduced by `p4` is the
/// embedding modulo `p4` of the fraction that was embedded, where that
/// fraction's denominator is coprime to the ciphertext modulus.
pub proof fn lemma_blinding_vanishes(
    k: Primes,
    width: nat,
    num: int,
    den: nat,
    s1: nat,
    s2: nat,
    s3: nat,
    delta: nat,
)
    requires
        k.valid(width),
        gcd(k.modulus(), k.term(num, den, s1, s2, s3).1) == 1,
    ensures
        gcd(k.p4, k.term(num, den, s1, s2, s3).1) == 1,
        k.encrypt_value(num, den, s1, s2, s3, delta) % k.p4 == embed_value(
            k.p4,
            k.term(num, den, s1, s2, s3).0,
            k.term(num, den, s1, s2, s3).1,
        ),
{
    let g = k.modulus();
    let gi = g as int;
    let p4 = k.p4 as int;
    let d4 = k.delta_bound() as int;
    let (tn, td) = k.term(num, den, s1, s2, s3);
    lemma_partial_products(k, width);
    assert(k.p4 * k.delta_bound() == g) by (nonlinear_arith)
        requires
            g == k.delta_bound() * k.p4,
    ;
    lemma_coprime_factor(k.p4, k.delta_bound(), td);
    lemma_gcd_symmetric(k.p4, td);
    let c0 = embed_value(g, tn, td);
    lemma_embedding_law(g, tn, td);
    let k0 = lemma_congruent_difference((td * c0) as int, tn, gi);
    let y = (delta * k.p4) % g;
    let c = (c0 + y) % g;
    lemma_fundamental_div_mod((c0 + y) as int, gi);
    lemma_fundamental_div_mod((delta * k.p4) as int, gi);
    lemma_fundamental_div_mod(c as int, p4);
    lemma_mod_bound(c as int, p4);
    let k1 = (c0 + y) as int / gi;
    let k2 = (delta * k.p4) as int / gi;
    let k3 = c as int / p4;
    let x = c % k.p4;
    let w = delta - d4 * k2 - d4 * k1 - k3;
    let f = d4 * k0 + td * w;
    assert(gi * k0 == p4 * (d4 * k0) && gi * k1 == p4 * (d4 * k1) && gi * k2 == p4 * (d4 * k2))
        by (nonlinear_arith)
        requires
            gi == d4 * p4,
    ;
    assert(x == c0 + delta * p4 - p4 * (d4 * k2) - p4 * (d4 * k1) - p4 * k3);
    assert(x == c0 + p4 * w) by (nonlinear_arith)
        requires
            x == c0 + delta * p4 - p4 * (d4 * k2) - p4 * (d4 * k1) - p4 * k3,
            w == delta - d4 * k2 - d4 * k1 - k3,
    ;
    assert(td * x == td * c0 + p4 * (td * w)) by (nonlinear_arith)
        requires
            x == c0 + p4 * w,
    ;
    assert(f * p4 == p4 * (d4 * k0) + p4 * (td * w)) by (nonlinear_arith)
        requires
            f == d4 * k0 + td * w,
    ;
    assert(td * x - tn == f * p4);
    vstd::arithmetic::div_mod::lemma_mod_multiples_basic(f, p4);
    lemma_embedding_unique(k.p4, tn, td, x);
}

/// Decryption undoes encryption, whatever the random choices: where the
/// embedded fraction has a denominator coprime to the ciphertext modulus and
/// numerator and denominator whose doubled squares lie below `p4`, and the
/// doubled squares of the message's numerator and denominator lie below `p1`,
/// the decrypted fraction is the same number as the message.
pub proof fn lemma_decrypt_encrypt(
    k: Primes,
    width: nat,
    num: int,
    den: nat,
    s1: nat,
    s2: nat,
    s3: nat,
    delta: nat,
)
    requires
        k.valid(width),
        den >= 1,
        gcd(k.modulus(), k.term(num, den, s1, s2, s3).1) == 1,
        2 * k.term(num, den, s1, s2, s3).0 * k.term(num, den, s1, s2, s3).0 < k.p4,
        2 * k.term(num, den, s1, s2, s3).1 * k.term(num, den, s1, s2, s3).1 < k.p4,
        2 * num * num < k.p1,
        2 * den * den < k.p1,
    ensures
        ({
            let out = k.decrypt_value(k.encrypt_value(num, den, s1, s2, s3, delta));
            same_fraction(signed(out.0, out.2), out.1, num, den)
        }),
{
    let g = k.modulus();
    let p1 = k.p1 as int;
    let (tn, td) = k.term(num, den, s1, s2, s3);
    let noise = k.noise(s2, s3);
    let nb = noise.1;
    let xn = signed(noise.0, noise.2);
    lemma_partial_products(k, width);
    lemma_blinding_vanishes(k, width, num, den, s1, s2, s3, delta);
    let c = k.encrypt_value(num, den, s1, s2, s3, delta);
    assert(td >= 1) by {
        reveal_with_fuel(gcd, 2);
    }
    let m4 = lemma_round_trip(k.p4, tn, td);
    let first = reconstruct(k.p4, k.p4, c % k.p4, 0, 1, false);
    let a = signed(first.0, first.2);
    let b = first.1;
    assert(b >= 1) by (nonlinear_arith)
        requires
            td == m4 * b,
            td >= 1,
            m4 >= 1,
    ;
    // The denominators on the way are coprime to p1.
    assert(k.p1 * (k.p2 * k.p3 * k.p5 * k.p4) == g) by (nonlinear_arith)
        requires
            g == k.p1 * k.p2 * k.p3 * k.p5 * k.p4,
    ;
    lemma_coprime_factor(k.p1, k.p2 * k.p3 * k.p5 * k.p4, td);
    lemma_gcd_symmetric(k.p1, td);
    assert(b * (m4 as nat) == td && den * nb == td) by (nonlinear_arith)
        requires
            td == m4 * b,
            td == nb * den,
            m4 >= 1,
    ;
    lemma_coprime_factor(b, m4 as nat, k.p1);
    lemma_coprime_factor(den, nb, k.p1);
    // The message's residue modulo p1 is that of the fraction read modulo p4.
    let xm = embed_value(k.p1, num, den);
    lemma_embedding_law(k.p1, num, den);
    lemma_mod_bound(
        (((num % p1) as nat) * crate::arith::mod_inverse(den, k.p1)) as int,
        p1,
    );
    let k5 = lemma_congruent_difference((den * xm) as int, num, p1);
    let z = b * xm - a;
    let dx = (den * xm) as int;
    let left = nb * b * k5;
    let e = s1 * xn * den;
    let right = b * e;
    let common = nb * b * num;
    let f = left - right;
    assert(td * a == b * tn) by (nonlinear_arith)
        requires
            td == m4 * b,
            tn == m4 * a,
    ;
    assert(td * (b * xm) == nb * b * dx) by (nonlinear_arith)
        requires
            td == nb * den,
            dx == den * xm,
    ;
    assert(nb * b * dx == common + p1 * left) by (nonlinear_arith)
        requires
            dx == num + p1 * k5,
            left == nb * b * k5,
            common == nb * b * num,
    ;
    assert((s1 * (p1 * xn)) * den == p1 * e) by (nonlinear_arith)
        requires
            e == s1 * xn * den,
    ;
    assert(b * tn == b * (p1 * e) + b * (num * nb)) by (nonlinear_arith)
        requires
            tn == p1 * e + num * nb,
    ;
    assert(b * (p1 * e) == p1 * right) by (nonlinear_arith)
        requires
            right == b * e,
    ;
    assert(b * (num * nb) == common) by (nonlinear_arith)
        requires
            common == nb * b * num,
    ;
    assert(b * tn == p1 * right + common);
    assert(p1 * f == p1 * left - p1 * right) by (nonlinear_arith)
        requires
            f == left - right,
    ;
    assert(td * z == td * (b * xm) - td * a) by (nonlinear_arith)
        requires
            z == b * xm - a,
    ;
    assert(td * z == p1 * f);
    lemma_cancel(k.p1, td, z, f);
    lemma_embedding_unique(k.p1, a, b, xm);
    let _ = lemma_round_trip(k.p1, num, den);
}

impl<const L: usize> CryptographicParameters<L> {
    /// The key of the five numbers, which are taken as they are.
    pub fn new(p1: BigInt<L>, p2: BigInt<L>, p3: BigInt<L>, p4: BigInt<L>, p5: BigInt<L>) -> (k:
        Self)
        ensures
            k@ == (Primes { p1: p1@, p2: p2@, p3: p3@, p4: p4@, p5: p5@ }),
    {
        CryptographicParameters { p1, p2, p3, p4, p5 }
    }

    /// Whether the numbers of the key are what its operations need.
    pub fn is_valid(&self) -> (r: bool)
        ensures
            r == self@.valid(L as nat),
    {
        if !(self.p1.is_odd_modulus() && self.p2.is_odd_modulus() && self.p3.is_odd_modulus()
            && self.p4.is_odd_modulus() && self.p5.is_odd_modulus()) {
            return false;
        }
        let one = BigInt::<L>::from_u64(1);
        proof {
            lemma_grows(self@.p1 * self@.p2, self@.p3);
            lemma_grows(self@.p1 * self@.p2 * self@.p3, self@.p5);
            lemma_grows(self@.p1 * self@.p2 * self@.p3 * self@.p5, self@.p4);
        }
        let p12 = match self.p1.checked_mul(&self.p2) {
            Some(p) => p,
            None => {
                return false;
            },
        };
        if !BigInt::gcd(&self.p1, &self.p2).equals(&one) || !BigInt::gcd(&p12, &self.p3).equals(
            &one,
        ) {
            return false;
        }
        let q = match p12.checked_mul(&self.p3) {
            Some(p) => p,
            None => {
                return false;
            },
        };
        let d = match q.checked_mul(&self.p5) {
            Some(p) => p,
            None => {
                return false;
            },
        };
        proof {
            lemma_value_bound(d.words@);
        }
        match d.checked_mul(&self.p4) {
            Some(g) => {
                proof {
                    lemma_value_bound(g.words@);
                }
                true
            },
            None => false,
        }
    }

    /// Whether a fraction can be encrypted under a valid key: whether the
    /// fractions on the way fit the width.
    pub fn can_encrypt(&self, m: &Rational<L>) -> (r: bool)
        requires
            self@.valid(L as nat),
        ensures
            r == self@.fits(m.num@, m.denom@, L as nat),
    {
        if m.denom.is_zero() {
            return false;
        }
        proof {
            lemma_partial_products(self@, L as nat);
            let q = self@.noise_modulus();
            lemma_grows(self@.p1 * (self@.p1 * q), m.denom@);
            lemma_grows(q, self@.p1);
            lemma_grows(self@.p1 * q, self@.p1);
            assert(self@.p1 * q == q * self@.p1) by (nonlinear_arith);
            assert(self@.p1 * (self@.p1 * q) == (self@.p1 * q) * self@.p1) by (nonlinear_arith);
            assert(m.num@ * q >= 0) by (nonlinear_arith);
        }
        let q = self.p1.mul(&self.p2).mul(&self.p3);
        let y = match self.p1.checked_mul(&q) {
            Some(y) => y,
            None => {
                return false;
            },
        };
        let x = match y.checked_mul(&self.p1) {
            Some(x) => x,
            None => {
                return false;
            },
        };
        let left = match x.checked_mul(&m.denom) {
            Some(v) => v,
            None => {
                return false;
            },
        };
        let right = match m.num.checked_mul(&q) {
            Some(v) => v,
            None => {
                return false;
            },
        };
        match left.checked_add(&right) {
            Some(v) => {
                proof {
                    lemma_value_bound(v.words@);
                }
                true
            },
            None => false,
        }
    }

    /// The product of the last four numbers of the key.
    pub fn public_key(&self) -> (r: BigInt<L>)
        requires
            self@.valid(L as nat),
        ensures
            r@ == self@.p2 * self@.p3 * self@.p4 * self@.p5,
    {
        proof {
            lemma_partial_products(self@, L as nat);
        }
        self.p2.mul(&self.p3).mul(&self.p4).mul(&self.p5)
    }

    /// The modulus of the ciphertexts: the product of all five numbers.
    pub fn encryption_modulus(&self) -> (r: BigInt<L>)
        requires
            self@.valid(L as nat),
        ensures
            r@ == self@.modulus(),
    {
        proof {
            lemma_partial_products(self@, L as nat);
        }
        self.p1.mul(&self.p2).mul(&self.p3).mul(&self.p5).mul(&self.p4)
    }

    /// The element modulo `p1 * p2 * p3` with the remainders `n1` modulo
    /// `p1`, `n2` modulo `p2` and `n3` modulo `p3`.
    pub fn chinese_remainder(&self, n1: BigInt<L>, n2: BigInt<L>, n3: BigInt<L>) -> (hc:
        HenselCode<L>)
        requires
            self@.valid(L as nat),
        ensures
            hc.wf(),
            hc@ == (self@.noise_modulus(), self@.crt3(n1@, n2@, n3@)),
            hc@.1 % self@.p1 == n1@ % self@.p1,
            hc@.1 % self@.p2 == n2@ % self@.p2,
            hc@.1 % self@.p3 == n3@ % self@.p3,
    {
        proof {
            lemma_partial_products(self@, L as nat);
            lemma_value_bound(n1.words@);
            lemma_value_bound(n2.words@);
            lemma_value_bound(n3.words@);
            lemma_small_mod(n1@, capacity(L as nat));
            lemma_small_mod(n2@, capacity(L as nat));
            lemma_small_mod(n3@, capacity(L as nat));
        }
        let hc1 = crate::hensel_code::new_hensel_code(&self.p1, &n1);
        let hc2 = crate::hensel_code::new_hensel_code(&self.p2, &n2);
        let hc3 = crate::hensel_code::new_hensel_code(&self.p3, &n3);
        let hc12 = crate::hensel_code::chinese_remainder(hc1, hc2);
        let hc = crate::hensel_code::chinese_remainder(hc12, hc3);
        proof {
            lemma_mod_mod(hc@.1 as int, self@.p1 as int, self@.p2 as int);
            lemma_mod_mod(hc@.1 as int, self@.p2 as int, self@.p1 as int);
            assert(self@.p1 * self@.p2 == self@.p2 * self@.p1) by (nonlinear_arith);
        }
        hc
    }

    /// The ciphertext of `m` under the given random choices: the noise
    /// `s1 * p1 * r`, where `r` stands for the remainders `0`, `s2`, `s3`
    /// divided by `p1`, is added to `m`, the sum is embedded modulo the
    /// product of the five numbers, and `delta * p4` is added to it.
    pub fn encrypt_with(
        &self,
        m: &Rational<L>,
        s1: &BigInt<L>,
        s2: &BigInt<L>,
        s3: &BigInt<L>,
        delta: &BigInt<L>,
    ) -> (hc: HenselCode<L>)
        requires
            self@.valid(L as nat),
            self@.fits(m.num@, m.denom@, L as nat),
            s1@ < self@.p1,
            delta@ < self@.delta_bound(),
        ensures
            hc.wf(),
            hc@ == (
                self@.modulus(),
                self@.encrypt_value(m.signed_num(), m.denom@, s1@, s2@, s3@, delta@),
            ),
    {
        proof {
            lemma_partial_products(self@, L as nat);
        }
        let q = self.p1.mul(&self.p2).mul(&self.p3);
        let g = q.mul(&self.p5).mul(&self.p4);
        proof {
            lemma_product_bound(delta@, self@.p4, self@.delta_bound(), self@.p4);
            lemma_small_mod(delta@ * self@.p4, capacity(L as nat));
        }
        let dp4 = crate::hensel_code::new_hensel_code(&g, &delta.mul(&self.p4));
        let one = BigInt::<L>::from_u64(1);
        let hc_noise = self.chinese_remainder(BigInt::<L>::zero(), *s2, *s3);
        proof {
            lemma_small_mod(0, self@.p1);
        }
        let hc_aligned = HenselCode::from_aligned(&q, &hc_noise.to_bigint(), &self.p1);
        let r_aligned = Rational::from_hensel(&hc_aligned);
        proof {
            let x = self@.p1 * q@;
            lemma_grows(q@, self@.p1);
            lemma_grows(x, self@.p1);
            lemma_grows(self@.p1 * x, m.denom@);
            assert(self@.p1 * q@ == q@ * self@.p1) by (nonlinear_arith);
            assert(self@.p1 * x == x * self@.p1) by (nonlinear_arith);
            lemma_product_bound(self@.p1, r_aligned.num@, self@.p1, q@);
            lemma_product_bound(s1@, self@.p1 * r_aligned.num@, self@.p1, x);
            lemma_product_bound(s1@ * (self@.p1 * r_aligned.num@), m.denom@, self@.p1 * x, m.denom@);
            lemma_product_bound(m.num@, r_aligned.denom@, m.num@, q@);
            lemma_product_bound(r_aligned.denom@, m.denom@, self@.p1 * x, m.denom@);
            assert(1 * r_aligned.denom@ == r_aligned.denom@);
            assert(1 * (1 * r_aligned.denom@) == r_aligned.denom@);
        }
        let r_noise = Rational { num: self.p1, denom: one, negative: false }.mul(&r_aligned);
        let rs1 = Rational { num: *s1, denom: one, negative: false };
        let term = rs1.mul(&r_noise).add(m);
        let c0 = HenselCode::from_rational(&g, &term);
        c0.add(&dp4)
    }

    /// A ciphertext of `m`: `encrypt_with` on random choices below `p1`,
    /// `p2`, `p3` and `p1 * p2 * p3 * p5`.
    pub fn encrypt(&self, m: Rational<L>) -> (hc: HenselCode<L>)
        requires
            self@.valid(L as nat),
            self@.fits(m.num@, m.denom@, L as nat),
        ensures
            hc.wf(),
            hc@.0 == self@.modulus(),
            exists|s1: nat, s2: nat, s3: nat, delta: nat|
                s1 < self@.p1 && s2 < self@.p2 && s3 < self@.p3 && delta < self@.delta_bound()
                    && hc@.1 == #[trigger] self@.encrypt_value(
                    m.signed_num(),
                    m.denom@,
                    s1,
                    s2,
                    s3,
                    delta,
                ),
    {
        proof {
            lemma_partial_products(self@, L as nat);
        }
        let delta_max = self.p1.mul(&self.p2).mul(&self.p3).mul(&self.p5);
        let s1 = BigInt::random_mod(&self.p1);
        let s2 = BigInt::random_mod(&self.p2);
        let s3 = BigInt::random_mod(&self.p3);
        let delta = BigInt::random_mod(&delta_max);
        self.encrypt_with(&m, &s1, &s2, &s3, &delta)
    }

    /// The fraction of a ciphertext: its residue is reduced by `p4` and read
    /// as a fraction, which is embedded modulo `p1` and read as a fraction
    /// again.
    pub fn decrypt(&self, hc: HenselCode<L>) -> (r: Rational<L>)
        requires
            self@.valid(L as nat),
        ensures
            (r.num@, r.denom@, r.negative) == self@.decrypt_value(hc@.1),
            r.denom@ >= 1,
    {
        let n = hc.to_bigint();
        proof {
            lemma_value_bound(n.words@);
            lemma_small_mod(n@, capacity(L as nat));
        }
        let hc_p4 = crate::hensel_code::new_hensel_code(&self.p4, &n);
        let r_p4 = Rational::from_hensel(&hc_p4);
        Rational::from_hensel(&HenselCode::from_rational(&self.p1, &r_p4))
    }
}

} // verus!
