//! Multiplicative subgroups of prescribed order inside the group of nonzero
//! residues modulo a prime: modular exponentiation, Miller-Rabin primality
//! testing, divisor enumeration, primitive-root search and subgroup assembly.

pub mod arith;
pub mod divisors;
pub mod generator;
pub mod primality;
pub mod sampling;
pub mod subgroup;

pub use arith::mod_exp;
pub use arith::mul_mod;
pub use divisors::factors;
pub use divisors::is_factor;
pub use generator::find_generator;
pub use generator::is_generator;
pub use primality::is_prime;
pub use sampling::generate_candidate;
pub use subgroup::multiplicative_subgroup;
pub use subgroup::NotFactorError;
pub use subgroup::NotPrimeError;
pub use subgroup::SubgroupError;
