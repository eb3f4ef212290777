//! Fixed-width unsigned integers. A `BigInt<L>` holds `L` 64-bit words, least
//! significant first; the arithmetic itself is done by `crypto_bigint::Uint`.

use vstd::prelude::*;
use vstd::arithmetic::power2::pow2;
use crypto_bigint::{NonZero, RandomMod, Uint};
use crypto_bigint::modular::runtime_mod::{DynResidue, DynResidueParams};
use crypto_bigint::rand_core::OsRng;

verus! {

/// The number that a little-endian sequence of 64-bit words stands for.
pub open spec fn limbs_value(s: Seq<u64>) -> nat
    decreases s.len(),
{
    if s.len() == 0 {
        0
    } else {
        s[0] as nat + 0x1_0000_0000_0000_0000 * limbs_value(s.drop_first())
    }
}

/// The first number that `l` words cannot hold.
pub open spec fn capacity(l: nat) -> nat {
    pow2(64 * l)
}

/// The greatest common divisor, by Euclid's rule.
pub open spec fn gcd(a: nat, b: nat) -> nat
    decreases b,
{
    if b == 0 {
        a
    } else {
        gcd(b, a % b)
    }
}

/// A modulus that residue arithmetic accepts: odd and at least 3.
pub open spec fn odd_modulus(m: nat) -> bool {
    m >= 3 && m % 2 == 1
}

/// An unsigned integer of `L` words.
#[derive(Clone, Copy, Debug, PartialEq, Eq)]
pub struct BigInt<const L: usize> {
    pub words: [u64; L],
}

impl<const L: usize> View for BigInt<L> {
    type V = nat;

    open spec fn view(&self) -> nat {
        limbs_value(self.words@)
    }
}

/// `Uint::from_u128`: the words of `n`, which needs two of them.
#[verifier::external_body]
fn uint_from_u128<const L: usize>(n: u128) -> (r: BigInt<L>)
    requires
        L >= 2,
    ensures
        r@ == n,
{
    BigInt { words: Uint::<L>::from_u128(n).to_words() }
}

/// `Uint::from_u64`: the word `n` followed by zero words.
#[verifier::external_body]
fn uint_from_u64<const L: usize>(n: u64) -> (r: BigInt<L>)
    requires
        L >= 1,
    ensures
        r@ == n,
{
    BigInt { words: Uint::<L>::from_u64(n).to_words() }
}

/// `Uint::wrapping_add`: the sum, with the carry out of the top word dropped.
#[verifier::external_body]
fn uint_wrapping_add<const L: usize>(a: &BigInt<L>, b: &BigInt<L>) -> (r: BigInt<L>)
    ensures
        r@ == (a@ + b@) % capacity(L as nat),
{
    BigInt { words: Uint::from_words(a.words).wrapping_add(&Uint::from_words(b.words)).to_words() }
}

/// `Uint::wrapping_sub`: the difference, with the borrow out of the top word
/// dropped.
#[verifier::external_body]
fn uint_wrapping_sub<const L: usize>(a: &BigInt<L>, b: &BigInt<L>) -> (r: BigInt<L>)
    ensures
        r@ == (a@ - b@) % (capacity(L as nat) as int),
{
    BigInt { words: Uint::from_words(a.words).wrapping_sub(&Uint::from_words(b.words)).to_words() }
}

/// `Uint::wrapping_mul`: the low `L` words of the product.
#[verifier::external_body]
fn uint_wrapping_mul<const L: usize>(a: &BigInt<L>, b: &BigInt<L>) -> (r: BigInt<L>)
    ensures
        r@ == (a@ * b@) % capacity(L as nat),
{
    BigInt { words: Uint::from_words(a.words).wrapping_mul(&Uint::from_words(b.words)).to_words() }
}

/// `Uint::div_rem` by a `NonZero` divisor: quotient and remainder.
#[verifier::external_body]
fn uint_div_rem<const L: usize>(a: &BigInt<L>, b: &BigInt<L>) -> (r: (BigInt<L>, BigInt<L>))
    requires
        b@ != 0,
    ensures
        r.0@ == a@ / b@,
        r.1@ == a@ % b@,
{
    let d = NonZero::new(Uint::from_words(b.words)).unwrap();
    let (q, m) = Uint::from_words(a.words).div_rem(&d);
    (BigInt { words: q.to_words() }, BigInt { words: m.to_words() })
}

/// `Uint`'s `==`: whether the two stand for the same number.
#[verifier::external_body]
fn uint_eq<const L: usize>(a: &BigInt<L>, b: &BigInt<L>) -> (r: bool)
    ensures
        r == (a@ == b@),
{
    Uint::from_words(a.words) == Uint::from_words(b.words)
}

/// `Uint`'s `<`: the order of the numbers.
#[verifier::external_body]
fn uint_lt<const L: usize>(a: &BigInt<L>, b: &BigInt<L>) -> (r: bool)
    ensures
        r == (a@ < b@),
{
    Uint::from_words(a.words) < Uint::from_words(b.words)
}

/// `Uint::resize`: the low `T` words, zero-filled where `T` is the larger.
#[verifier::external_body]
fn uint_resize<const L: usize, const T: usize>(a: &BigInt<L>) -> (r: BigInt<T>)
    ensures
        r@ == a@ % capacity(T as nat),
{
    BigInt { words: Uint::from_words(a.words).resize::<T>().to_words() }
}

/// `Uint::random_mod` on the operating system's generator: some number below
/// the modulus. Nothing else is known of it.
#[verifier::external_body]
fn uint_random_mod<const L: usize>(m: &BigInt<L>) -> (r: BigInt<L>)
    requires
        m@ != 0,
    ensures
        r@ < m@,
{
    let d = NonZero::new(Uint::from_words(m.words)).unwrap();
    BigInt { words: Uint::random_mod(&mut OsRng, &d).to_words() }
}

/// `DynResidue::new` then `retrieve`: the number reduced by an odd modulus.
#[verifier::external_body]
pub(crate) fn residue_reduce<const L: usize>(m: &BigInt<L>, a: &BigInt<L>) -> (r: BigInt<L>)
    requires
        odd_modulus(m@),
    ensures
        r@ == a@ % m@,
{
    let params = DynResidueParams::new(&Uint::from_words(m.words));
    BigInt { words: DynResidue::new(&Uint::from_words(a.words), params).retrieve().to_words() }
}

/// `DynResidue`'s `+`: the sum of two numbers, reduced by an odd modulus.
#[verifier::external_body]
pub(crate) fn residue_add<const L: usize>(m: &BigInt<L>, a: &BigInt<L>, b: &BigInt<L>) -> (r: BigInt<L>)
    requires
        odd_modulus(m@),
    ensures
        r@ == (a@ + b@) % m@,
{
    let params = DynResidueParams::new(&Uint::from_words(m.words));
    let x = DynResidue::new(&Uint::from_words(a.words), params);
    let y = DynResidue::new(&Uint::from_words(b.words), params);
    BigInt { words: (x + y).retrieve().to_words() }
}

/// `DynResidue`'s `*`: the product of two numbers, reduced by an odd modulus.
#[verifier::external_body]
pub(crate) fn residue_mul<const L: usize>(m: &BigInt<L>, a: &BigInt<L>, b: &BigInt<L>) -> (r: BigInt<L>)
    requires
        odd_modulus(m@),
    ensures
        r@ == (a@ * b@) % m@,
{
    let params = DynResidueParams::new(&Uint::from_words(m.words));
    let x = DynResidue::new(&Uint::from_words(a.words), params);
    let y = DynResidue::new(&Uint::from_words(b.words), params);
    BigInt { words: (x * y).retrieve().to_words() }
}

/// `DynResidue::invert`: for a number coprime to the odd modulus, the one
/// residue whose product with it is 1.
#[verifier::external_body]
pub(crate) fn residue_invert<const L: usize>(m: &BigInt<L>, a: &BigInt<L>) -> (r: BigInt<L>)
    requires
        odd_modulus(m@),
        gcd(a@, m@) == 1,
    ensures
        r@ < m@,
        (a@ * r@) % m@ == 1,
{
    let params = DynResidueParams::new(&Uint::from_words(m.words));
    let x = DynResidue::new(&Uint::from_words(a.words), params);
    BigInt { words: x.invert().0.retrieve().to_words() }
}

impl<const L: usize> BigInt<L> {
    /// The number `n`, in a width of at least two words.
    pub fn from_u128(n: u128) -> (r: Self)
        requires
            L >= 2,
        ensures
            r@ == n,
    {
        uint_from_u128(n)
    }

    /// The number `n`, in a width of at least one word.
    pub fn from_u64(n: u64) -> (r: Self)
        requires
            L >= 1,
        ensures
            r@ == n,
    {
        uint_from_u64(n)
    }

    /// The number zero, in any width.
    pub fn zero() -> (r: Self)
        ensures
            r@ == 0,
    {
        let r = BigInt { words: [0u64; L] };
        proof {
            lemma_zero_words(r.words@);
        }
        r
    }

    /// Whether the number is zero.
    pub fn is_zero(&self) -> (r: bool)
        ensures
            r == (self@ == 0),
    {
        uint_eq(self, &Self::zero())
    }

    /// Whether the two numbers are equal.
    pub fn equals(&self, other: &Self) -> (r: bool)
        ensures
            r == (self@ == other@),
    {
        uint_eq(self, other)
    }

    /// Whether this number is the smaller of the two.
    pub fn less_than(&self, other: &Self) -> (r: bool)
        ensures
            r == (self@ < other@),
    {
        uint_lt(self, other)
    }

    /// The sum, where it fits the width.
    pub fn add(&self, other: &Self) -> (r: Self)
        requires
            self@ + other@ < capacity(L as nat),
        ensures
            r@ == self@ + other@,
    {
        let r = uint_wrapping_add(self, other);
        proof {
            vstd::arithmetic::div_mod::lemma_small_mod(self@ + other@, capacity(L as nat));
        }
        r
    }

    /// The difference, where it is not negative.
    pub fn sub(&self, other: &Self) -> (r: Self)
        requires
            other@ <= self@,
        ensures
            r@ == self@ - other@,
    {
        let r = uint_wrapping_sub(self, other);
        proof {
            lemma_value_bound(self.words@);
            vstd::arithmetic::div_mod::lemma_small_mod(
                (self@ - other@) as nat,
                capacity(L as nat),
            );
        }
        r
    }

    /// The product, where it fits the width.
    pub fn mul(&self, other: &Self) -> (r: Self)
        requires
            self@ * other@ < capacity(L as nat),
        ensures
            r@ == self@ * other@,
    {
        let r = uint_wrapping_mul(self, other);
        proof {
            vstd::arithmetic::div_mod::lemma_small_mod(self@ * other@, capacity(L as nat));
        }
        r
    }

    /// The sum, or `None` where it does not fit the width.
    pub fn checked_add(&self, other: &Self) -> (r: Option<Self>)
        ensures
            match r {
                Some(s) => s@ == self@ + other@,
                None => self@ + other@ >= capacity(L as nat),
            },
    {
        let w = uint_wrapping_add(self, other);
        proof {
            let c = capacity(L as nat) as int;
            lemma_value_bound(self.words@);
            lemma_value_bound(other.words@);
            if self@ + other@ >= c {
                vstd::arithmetic::div_mod::lemma_mod_add_multiples_vanish(
                    self@ + other@ - c,
                    c,
                );
                vstd::arithmetic::div_mod::lemma_small_mod((self@ + other@ - c) as nat, c as nat);
            } else {
                vstd::arithmetic::div_mod::lemma_small_mod(self@ + other@, c as nat);
            }
        }
        if w.less_than(self) {
            None
        } else {
            Some(w)
        }
    }

    /// The product, or `None` where it does not fit the width.
    pub fn checked_mul(&self, other: &Self) -> (r: Option<Self>)
        ensures
            match r {
                Some(p) => p@ == self@ * other@,
                None => self@ * other@ >= capacity(L as nat),
            },
    {
        let w = uint_wrapping_mul(self, other);
        proof {
            lemma_value_bound(w.words@);
        }
        if self.is_zero() {
            proof {
                assert(self@ * other@ == 0) by (nonlinear_arith)
                    requires
                        self@ == 0,
                ;
                vstd::arithmetic::div_mod::lemma_small_mod(0, capacity(L as nat));
            }
            return Some(w);
        }
        let (q, _) = uint_div_rem(&w, self);
        proof {
            let a = self@ as int;
            let b = other@ as int;
            let c = capacity(L as nat) as int;
            assert(a * b >= 0) by (nonlinear_arith)
                requires
                    a >= 0,
                    b >= 0,
            ;
            if a * b < c {
                vstd::arithmetic::div_mod::lemma_small_mod((a * b) as nat, c as nat);
                vstd::arithmetic::div_mod::lemma_div_multiples_vanish(b, a);
                assert(a * b == b * a) by (nonlinear_arith);
            } else if q@ == other@ {
                vstd::arithmetic::div_mod::lemma_fundamental_div_mod(w@ as int, a);
                vstd::arithmetic::div_mod::lemma_mod_bound(w@ as int, a);
            }
        }
        if q.equals(other) {
            Some(w)
        } else {
            None
        }
    }

    /// Whether the number is odd and at least 3.
    pub fn is_odd_modulus(&self) -> (r: bool)
        ensures
            r == odd_modulus(self@),
    {
        if self.is_zero() {
            return false;
        }
        let (_, low) = self.div_rem(&Self::from_u64(2));
        !self.less_than(&Self::from_u64(3)) && low.equals(&Self::from_u64(1))
    }

    /// Quotient and remainder of the division by a divisor that is not zero.
    pub fn div_rem(&self, other: &Self) -> (r: (Self, Self))
        requires
            other@ != 0,
        ensures
            r.0@ == self@ / other@,
            r.1@ == self@ % other@,
    {
        uint_div_rem(self, other)
    }

    /// The number in another width: its low `T` words.
    pub fn resize<const T: usize>(&self) -> (r: BigInt<T>)
        ensures
            r@ == self@ % capacity(T as nat),
    {
        uint_resize::<L, T>(self)
    }

    /// A number below `modulus`, drawn by the operating system's generator.
    pub fn random_mod(modulus: &Self) -> (r: Self)
        requires
            modulus@ != 0,
        ensures
            r@ < modulus@,
    {
        uint_random_mod(modulus)
    }

    /// The greatest common divisor of the two numbers.
    pub fn gcd(a: &Self, b: &Self) -> (r: Self)
        ensures
            r@ == gcd(a@, b@),
    {
        let mut x = *a;
        let mut y = *b;
        while !y.is_zero()
            invariant
                gcd(x@, y@) == gcd(a@, b@),
            decreases y@,
        {
            let (_, m) = uint_div_rem(&x, &y);
            proof {
                vstd::arithmetic::div_mod::lemma_mod_bound(x@ as int, y@ as int);
            }
            x = y;
            y = m;
        }
        x
    }
}

/// A sequence of zero words stands for zero.
pub proof fn lemma_zero_words(s: Seq<u64>)
    requires
        forall|i: int| 0 <= i < s.len() ==> s[i] == 0,
    ensures
        limbs_value(s) == 0,
    decreases s.len(),
{
    if s.len() > 0 {
        lemma_zero_words(s.drop_first());
    }
}

/// A sequence of words stands for a number below the capacity of its length.
pub proof fn lemma_value_bound(s: Seq<u64>)
    ensures
        limbs_value(s) < capacity(s.len()),
    decreases s.len(),
{
    vstd::arithmetic::power2::lemma2_to64();
    vstd::arithmetic::power2::lemma2_to64_rest();
    if s.len() > 0 {
        let t = s.drop_first();
        lemma_value_bound(t);
        vstd::arithmetic::power2::lemma_pow2_adds(64, 64 * t.len());
        let hi = limbs_value(t);
        let c = pow2(64 * t.len());
        assert(0x1_0000_0000_0000_0000 * hi + 0x1_0000_0000_0000_0000 <= 0x1_0000_0000_0000_0000 * c)
            by (nonlinear_arith)
            requires
                hi < c,
        ;
        assert(64 + 64 * t.len() == 64 * s.len());
    }
}

} // verus!
