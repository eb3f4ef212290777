use hensel_phe::bigint::BigInt;
use hensel_phe::crypto_parameters::CryptographicParameters;
use hensel_phe::hensel_code::{chinese_remainder as combine, new_hensel_code, HenselCode};
use hensel_phe::rational::Rational;

const L: usize = 8;

fn big(n: u128) -> BigInt<L> {
    BigInt::<L>::from_u128(n)
}

fn fraction(num: u128, denom: u128) -> Rational<L> {
    Rational { num: big(num), denom: big(denom), negative: false }
}

fn same_number(a: &Rational<L>, b: &Rational<L>) -> bool {
    let left = a.num.mul(&b.denom);
    let right = b.num.mul(&a.denom);
    let zero = big(0);
    left == right && (a.negative == b.negative || left == zero)
}

#[test]
fn chinese_remainder() {
    let (p1, p2, p3, p4, p5) = (big(4919), big(7), big(11), big(13), big(17));
    let crypto_param = CryptographicParameters::new(p1, p2, p3, p4, p5);
    let (n1, n2, n3) = (big(38), big(2), big(1));
    let result = crypto_param.chinese_remainder(n1, n2, n3);

    assert_eq!(result.to_bigint().div_rem(&big(4919)).1, n1);
    assert_eq!(result.to_bigint().div_rem(&big(7)).1, n2);
    assert_eq!(result.to_bigint().div_rem(&big(11)).1, n3);

    let hc1 = new_hensel_code(&p1, &n1);
    let hc2 = new_hensel_code(&p2, &n2);
    let hc3 = new_hensel_code(&p3, &n3);
    let hc12 = combine(hc1, hc2);
    let hc = combine(hc12, hc3);
    assert_eq!(result.to_bigint(), hc.to_bigint());
    println!("{:?} : {:?}", hc, result);
}

fn embedding_tester(r: &Rational<L>, p: &BigInt<L>) {
    let hc = HenselCode::from_rational(p, r);
    let id_hc = new_hensel_code(p, &r.denom).invert();
    let n_hc = new_hensel_code(p, &r.num);
    assert_eq!(hc.modulus(), *p);
    assert_eq!(hc.to_bigint(), id_hc.mul(&n_hc).to_bigint());
    println!("rational: {:?} => hensel code: {:?}", r, hc);
}

#[test]
fn translates_rational_to_hensel_code() {
    let p = big(37);
    embedding_tester(&fraction(6, 1), &p);
    embedding_tester(&fraction(1, 8), &p);
    embedding_tester(&fraction(6, 8), &p);
}

fn round_trip_tester(r: &Rational<L>, p: &BigInt<L>) {
    let hc = HenselCode::from_rational(p, r);
    let new_r = Rational::from_hensel(&hc);
    let id_hc = new_hensel_code(p, &r.denom).invert();
    let n_hc = new_hensel_code(p, &r.num);
    assert_eq!(hc.modulus(), *p);
    assert_eq!(hc.to_bigint(), id_hc.mul(&n_hc).to_bigint());
    assert!(same_number(&new_r, r));
    println!("rational: {:?} => hensel code: {:?} => rational: {:?}", r, hc, new_r);
}

#[test]
fn translates_rational_to_hc_and_back() {
    let p = big(7919);
    round_trip_tester(&fraction(6, 1), &p);
    round_trip_tester(&fraction(1, 8), &p);
    round_trip_tester(&fraction(6, 8), &p);
}

#[test]
fn crt_small_primes_residue() {
    let key = CryptographicParameters::new(big(4919), big(7), big(11), big(13), big(17));
    let hc = key.chinese_remainder(big(38), big(2), big(1));
    assert_eq!(hc.modulus(), big(378763));
    assert!(hc.to_bigint().less_than(&big(378763)));
    let r = hc.to_bigint();
    assert_eq!(r.div_rem(&big(4919)).1, big(38));
    assert_eq!(r.div_rem(&big(7)).1, big(2));
    assert_eq!(r.div_rem(&big(11)).1, big(1));
}

#[test]
fn crt_of_two_codes_in_either_order() {
    let a = new_hensel_code(&big(7), &big(2));
    let b = new_hensel_code(&big(11), &big(1));
    let ab = combine(a, b);
    let ba = combine(b, a);
    assert_eq!(ab.modulus(), big(77));
    assert_eq!(ab.to_bigint(), big(23));
    assert_eq!(ba.to_bigint(), big(23));
}

#[test]
fn embeds_integer() {
    let hc = HenselCode::from_rational(&big(37), &fraction(6, 1));
    assert_eq!(hc.modulus(), big(37));
    assert_eq!(hc.to_bigint(), big(6));
}

#[test]
fn embeds_inverse() {
    let hc = HenselCode::from_rational(&big(37), &fraction(1, 8));
    assert_eq!(hc.to_bigint(), big(14));
}

#[test]
fn embeds_general_fraction() {
    let hc = HenselCode::from_rational(&big(37), &fraction(6, 8));
    assert_eq!(hc.to_bigint(), big(10));
}

#[test]
fn embeds_negative_fraction() {
    let r = Rational { num: big(1), denom: big(8), negative: true };
    let hc = HenselCode::from_rational(&big(37), &r);
    assert_eq!(hc.to_bigint(), big(23));
    let r = Rational { num: big(74), denom: big(8), negative: true };
    assert_eq!(HenselCode::from_rational(&big(37), &r).to_bigint(), big(0));
}

#[test]
fn embedding_without_inverse_is_zero() {
    let hc = HenselCode::from_rational(&big(37), &fraction(6, 74));
    assert_eq!(hc.modulus(), big(37));
    assert_eq!(hc.to_bigint(), big(0));
    let hc = HenselCode::from_rational(&big(37), &fraction(6, 0));
    assert_eq!(hc.to_bigint(), big(0));
    let hc = HenselCode::from_rational(&big(21), &fraction(1, 6));
    assert_eq!(hc.to_bigint(), big(0));
}

#[test]
fn aligned_embedding_divides_first() {
    let hc = HenselCode::from_aligned(&big(105), &big(51), &big(3));
    assert_eq!(hc.modulus(), big(105));
    assert_eq!(hc.to_bigint(), big(17));
    let hc = HenselCode::from_aligned(&big(105), &big(102), &big(3));
    assert_eq!(hc.to_bigint(), big(34));
}

#[test]
fn new_code_reduces() {
    let hc = new_hensel_code(&big(37), &big(100));
    assert_eq!(hc.modulus(), big(37));
    assert_eq!(hc.to_bigint(), big(26));
    let wide = BigInt::<16>::from_u128(7919 * 5 + 3);
    let hc = new_hensel_code(&big(7919), &wide);
    assert_eq!(hc.to_bigint(), big(3));
    let one_word = BigInt::<1>::from_u64(40);
    let two_words = BigInt::<2>::from_u128((1u128 << 64) + 40);
    let hc = new_hensel_code(&BigInt::<1>::from_u64(37), &two_words);
    assert_eq!(hc.to_bigint(), BigInt::<1>::from_u64(3));
    assert_eq!(two_words.resize::<1>(), one_word);
}

#[test]
fn zero_code() {
    let hc = HenselCode::generate_zero(&big(37));
    assert_eq!(hc.modulus(), big(37));
    assert_eq!(hc.to_bigint(), big(0));
}

#[test]
fn code_arithmetic() {
    let a = new_hensel_code(&big(37), &big(30));
    let b = new_hensel_code(&big(37), &big(20));
    assert_eq!(a.add(&b).to_bigint(), big(13));
    assert_eq!(a.mul(&b).to_bigint(), big(8));
    let inv = new_hensel_code(&big(37), &big(8)).invert();
    assert_eq!(inv.to_bigint(), big(14));
    assert_eq!(inv.modulus(), big(37));
}

#[test]
fn bigint_arithmetic() {
    assert_eq!(big(7).add(&big(8)), big(15));
    assert_eq!(big(8).sub(&big(7)), big(1));
    assert_eq!(big(1 << 70).mul(&big(3)), big(3 << 70));
    let (q, r) = big(100).div_rem(&big(7));
    assert_eq!(q, big(14));
    assert_eq!(r, big(2));
    assert!(big(3).less_than(&big(4)));
    assert!(!big(4).less_than(&big(4)));
    assert!(big(4).equals(&big(4)));
    assert!(!big(4).equals(&big(5)));
    assert!(BigInt::<L>::zero().is_zero());
    assert!(!big(1).is_zero());
    assert_eq!(BigInt::<L>::zero(), big(0));
    assert_eq!(BigInt::<L>::from_u64(77), big(77));
    assert_eq!(BigInt::gcd(&big(84), &big(36)), big(12));
    assert_eq!(BigInt::gcd(&big(37), &big(0)), big(37));
    assert_eq!(BigInt::gcd(&big(37), &big(8)), big(1));
    assert_eq!(big(u128::MAX).words[0], u64::MAX);
    assert_eq!(big(5).words[0], 5);
    assert_eq!(big(1 << 64).words[1], 1);
}

#[test]
fn random_numbers_stay_below_the_modulus() {
    let m = big(1000);
    let mut i = 0;
    while i < 50 {
        assert!(BigInt::random_mod(&m).less_than(&m));
        i += 1;
    }
    assert_eq!(BigInt::random_mod(&big(1)), big(0));
}

#[test]
fn rational_arithmetic() {
    let a = fraction(1, 2);
    let b = Rational { num: big(2), denom: big(3), negative: true };
    let p = a.mul(&b);
    assert_eq!((p.num, p.denom, p.negative), (big(2), big(6), true));
    let s = a.add(&b);
    assert_eq!((s.num, s.denom, s.negative), (big(1), big(6), true));
    let s = b.add(&a);
    assert_eq!((s.num, s.denom, s.negative), (big(1), big(6), true));
    let s = a.add(&a);
    assert_eq!((s.num, s.denom, s.negative), (big(4), big(4), false));
    let r = Rational::new(big(3), big(5));
    assert_eq!((r.num, r.denom, r.negative), (big(3), big(5), false));
}

#[test]
fn reconstruction_takes_the_first_small_remainder() {
    let r = Rational::from_hensel(&new_hensel_code(&big(37), &big(6)));
    assert_eq!((r.num, r.denom, r.negative), (big(1), big(6), true));
    let r = Rational::from_hensel(&new_hensel_code(&big(37), &big(3)));
    assert_eq!((r.num, r.denom, r.negative), (big(3), big(1), false));
    let r = Rational::from_hensel(&new_hensel_code(&big(37), &big(0)));
    assert_eq!((r.num, r.denom, r.negative), (big(0), big(1), false));
    let r = Rational::from_hensel(&new_hensel_code(&big(7919), &big(990)));
    assert_eq!((r.num, r.denom, r.negative), (big(1), big(8), false));
    let r = Rational::from_hensel(&new_hensel_code(&big(7919), &big(5940)));
    assert_eq!((r.num, r.denom, r.negative), (big(3), big(4), false));
}

fn key() -> CryptographicParameters<L> {
    CryptographicParameters::new(
        big(101),
        big(3),
        big(7),
        big(2305843009213693951),
        big(11),
    )
}

#[test]
fn key_products() {
    assert_eq!(key().public_key(), big(3 * 7 * 11 * 2305843009213693951));
    assert_eq!(key().encryption_modulus(), big(101 * 3 * 7 * 11 * 2305843009213693951));
}

#[test]
fn encrypts_without_noise_to_embedding_plus_blinding() {
    let k = key();
    let g = k.encryption_modulus();
    let m = fraction(3, 5);
    let c = k.encrypt_with(&m, &big(0), &big(0), &big(0), &big(0));
    assert_eq!(c.modulus(), g);
    assert_eq!(c.to_bigint(), HenselCode::from_rational(&g, &m).to_bigint());
    let d = k.encrypt_with(&m, &big(0), &big(0), &big(0), &big(9));
    let blind = new_hensel_code(&g, &big(9 * 2305843009213693951));
    assert_eq!(d.to_bigint(), HenselCode::from_rational(&g, &m).add(&blind).to_bigint());
    assert!(d.to_bigint() != c.to_bigint());
}

#[test]
fn decrypts_what_was_encrypted_with_a_fixed_tape() {
    let k = key();
    let m = fraction(3, 5);
    let c = k.encrypt_with(&m, &big(17), &big(1), &big(2), &big(123456789));
    let back = k.decrypt(c);
    assert_eq!((back.num, back.denom, back.negative), (big(3), big(5), false));
}

#[test]
fn decrypts_what_was_encrypted() {
    let k = key();
    let m = fraction(3, 5);
    let mut i = 0;
    while i < 20 {
        let c = k.encrypt(m);
        assert_eq!(c.modulus(), k.encryption_modulus());
        let back = k.decrypt(c);
        assert!(same_number(&back, &m));
        i += 1;
    }
}

#[test]
fn checked_arithmetic() {
    let top = BigInt::<1>::from_u64(u64::MAX);
    let one = BigInt::<1>::from_u64(1);
    let two = BigInt::<1>::from_u64(2);
    assert_eq!(top.checked_add(&one), None);
    assert_eq!(one.checked_add(&two), Some(BigInt::<1>::from_u64(3)));
    assert_eq!(top.checked_mul(&two), None);
    assert_eq!(top.checked_mul(&one), Some(top));
    assert_eq!(BigInt::<1>::zero().checked_mul(&top), Some(BigInt::<1>::zero()));
    assert_eq!(
        BigInt::<1>::from_u64(1 << 32).checked_mul(&BigInt::<1>::from_u64(1 << 32)),
        None
    );
    assert_eq!(
        BigInt::<1>::from_u64(1 << 31).checked_mul(&BigInt::<1>::from_u64(1 << 32)),
        Some(BigInt::<1>::from_u64(1 << 63))
    );
}

#[test]
fn odd_moduli() {
    assert!(big(3).is_odd_modulus());
    assert!(big(37).is_odd_modulus());
    assert!(!big(1).is_odd_modulus());
    assert!(!big(0).is_odd_modulus());
    assert!(!big(38).is_odd_modulus());
}

#[test]
fn key_validity() {
    assert!(key().is_valid());
    let k = CryptographicParameters::new(big(4919), big(7), big(11), big(13), big(17));
    assert!(k.is_valid());
    let even = CryptographicParameters::new(big(4919), big(7), big(11), big(13), big(2));
    assert!(!even.is_valid());
    let shared = CryptographicParameters::new(big(21), big(7), big(11), big(13), big(17));
    assert!(!shared.is_valid());
    let shared = CryptographicParameters::new(big(5), big(7), big(35), big(13), big(17));
    assert!(!shared.is_valid());
    let f = |n: u64| BigInt::<1>::from_u64(n);
    let wide = CryptographicParameters::new(f(65537), f(65539), f(65543), f(65551), f(65557));
    assert!(!wide.is_valid());
    let narrow = CryptographicParameters::new(f(101), f(3), f(7), f(13), f(11));
    assert!(narrow.is_valid());
}

#[test]
fn encryption_needs_room() {
    let k = key();
    assert!(k.can_encrypt(&fraction(3, 5)));
    assert!(!k.can_encrypt(&fraction(3, 0)));
    let f = |n: u64| BigInt::<1>::from_u64(n);
    let small = CryptographicParameters::new(f(101), f(3), f(7), f(13), f(11));
    let m = Rational { num: f(3), denom: f(5), negative: false };
    assert!(small.can_encrypt(&m));
    let m = Rational { num: f(3), denom: f(1 << 40), negative: false };
    assert!(!small.can_encrypt(&m));
    let m = Rational { num: f(1 << 60), denom: f(5), negative: false };
    assert!(!small.can_encrypt(&m));
}

#[test]
fn decryption_with_a_small_fourth_prime_loses_the_message() {
    let k = CryptographicParameters::new(big(4919), big(7), big(11), big(13), big(17));
    let m = fraction(3, 5);
    assert!(k.is_valid() && k.can_encrypt(&m));
    let c = k.encrypt_with(&m, &big(0), &big(0), &big(0), &big(0));
    let back = k.decrypt(c);
    assert_eq!((back.num, back.denom, back.negative), (big(2), big(1), true));
}

#[test]
fn decrypts_a_negative_fraction() {
    let k = key();
    let m = Rational { num: big(2), denom: big(5), negative: true };
    let c = k.encrypt_with(&m, &big(100), &big(2), &big(6), &big(77));
    let back = k.decrypt(c);
    assert_eq!((back.num, back.denom, back.negative), (big(2), big(5), true));
}

#[test]
fn sums_of_ciphertexts_decrypt_to_sums() {
    let k = key();
    let a = k.encrypt_with(&fraction(1, 2), &big(3), &big(1), &big(4), &big(5));
    let b = k.encrypt_with(&fraction(1, 4), &big(9), &big(2), &big(5), &big(6));
    let back = k.decrypt(a.add(&b));
    assert!(same_number(&back, &fraction(3, 4)));
}
