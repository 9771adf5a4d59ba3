//! Overflow-safe modular arithmetic: the multiply-and-reduce primitive and
//! binary (square-and-multiply) modular exponentiation.

use vstd::prelude::*;

verus! {

use vstd::arithmetic::power::pow;
use vstd::arithmetic::power::lemma_pow0;
use vstd::arithmetic::power::lemma_pow1;
use vstd::arithmetic::power::lemma_pow_adds;
use vstd::arithmetic::power::lemma_pow_multiplies;
use vstd::arithmetic::power::lemma_square_is_pow2;
use vstd::arithmetic::power::lemma_pow_mod_noop;
use vstd::arithmetic::div_mod::lemma_mul_mod_noop_general;
use vstd::arithmetic::div_mod::lemma_small_mod;
use vstd::arithmetic::mul::lemma_mul_is_associative;
use vstd::arithmetic::mul::lemma_mul_upper_bound;

/// Product of two residues reduced modulo `m`, computed through a
/// double-width intermediate so that the multiplication cannot wrap even
/// when `m` is close to the top of the `u64` range.
pub fn mul_mod(x: u64, y: u64, m: u64) -> (r: u64)
    requires
        m >= 1,
    ensures
        r as int == (x as int * y as int) % (m as int),
        r < m,
{
    proof {
        lemma_mul_upper_bound(x as int, u64::MAX as int, y as int, u64::MAX as int);
    }
    let wide: u128 = (x as u128) * (y as u128);
    let rr: u128 = wide % (m as u128);
    rr as u64
}

/// Squaring the base halves the exponent: `r * pow((b * b) % n, h)` is
/// congruent to `r * pow(b, 2 * h)` modulo `n` — the even step of
/// square-and-multiply.
proof fn lemma_square_step(r: int, b: int, h: nat, n: int)
    requires
        n >= 1,
    ensures
        (r * pow((b * b) % n, h)) % n == (r * pow(b, 2 * h)) % n,
{
    lemma_pow_mod_noop(b * b, h, n);
    lemma_mul_mod_noop_general(r, pow((b * b) % n, h), n);
    lemma_mul_mod_noop_general(r, pow(b * b, h), n);
    assert(pow(b * b, h) == pow(b, 2 * h)) by {
        lemma_square_is_pow2(b);
        lemma_pow_multiplies(b, 2, h);
    }
}

/// When `e` is odd, folding the low bit into the accumulator keeps the loop
/// invariant of square-and-multiply: `((r * b) % n) * pow((b * b) % n, e / 2)`
/// is congruent to `r * pow(b, e)` modulo `n`.
proof fn lemma_odd_step(r: int, b: int, e: nat, n: int)
    requires
        n >= 1,
        e % 2 == 1,
    ensures
        (((r * b) % n) * pow((b * b) % n, (e / 2) as nat)) % n == (r * pow(b, e)) % n,
{
    let h = (e / 2) as nat;
    lemma_mul_mod_noop_general(r * b, pow((b * b) % n, h), n);
    lemma_square_step(r * b, b, h, n);
    assert((r * b) * pow(b, 2 * h) == r * (b * pow(b, 2 * h))) by {
        lemma_mul_is_associative(r, b, pow(b, 2 * h));
    }
    assert(b * pow(b, 2 * h) == pow(b, e)) by {
        lemma_pow1(b);
        lemma_pow_adds(b, 1, 2 * h);
        assert(1 + 2 * h == e);
    }
}

/// `base^exponent mod modulus` by binary exponentiation: the exponent is
/// consumed bit by bit, the running base is squared each step, and the
/// accumulator picks up the base whenever the current low bit is set.
/// Every intermediate product goes through `mul_mod`, so no value wraps.
pub fn mod_exp(a: u64, s: u64, n: u64) -> (r: u64)
    requires
        n >= 1,
    ensures
        r as int == pow(a as int, s as nat) % (n as int),
        r < n,
{
    let mut result: u64 = 1 % n;
    let mut base: u64 = a % n;
    let mut e: u64 = s;
    proof {
        lemma_pow_mod_noop(a as int, s as nat, n as int);
        lemma_mul_mod_noop_general(1, pow((a as int) % (n as int), s as nat), n as int);
    }
    while e > 0
        invariant
            n >= 1,
            result < n,
            base < n,
            (result as int * pow(base as int, e as nat)) % (n as int) == pow(
                a as int,
                s as nat,
            ) % (n as int),
        decreases e,
    {
        let ghost r0 = result as int;
        let ghost b0 = base as int;
        let ghost e0 = e as nat;
        if e % 2 == 1 {
            result = mul_mod(result, base, n);
            proof {
                lemma_odd_step(r0, b0, e0, n as int);
            }
        } else {
            proof {
                lemma_square_step(r0, b0, (e0 / 2) as nat, n as int);
            }
        }
        base = mul_mod(base, base, n);
        e = e / 2;
    }
    proof {
        lemma_pow0(base as int);
        lemma_small_mod(result as nat, n as nat);
    }
    result
}

} // verus!
