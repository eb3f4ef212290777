//! Partially homomorphic encryption over the rationals, built on Hensel codes:
//! residues modulo a product of odd primes that stand for rational numbers.

pub mod arith;
pub mod bigint;
pub mod crypto_parameters;
pub mod hensel_code;
pub mod rational;
