//! Miller-Rabin probabilistic primality testing. The deterministic heart of
//! the test — what one base says about one candidate — is fully specified and
//! verified; only the choice of bases is random.

use vstd::prelude::*;

verus! {

use vstd::arithmetic::power::pow;
use vstd::arithmetic::power::lemma_pow0;
use vstd::arithmetic::power::lemma_pow1;
use vstd::arithmetic::power::lemma_pow_adds;
use vstd::arithmetic::power::lemma_pow_positive;
use vstd::arithmetic::power::lemma_pow_increases;
use vstd::arithmetic::power::lemma_square_is_pow2;
use vstd::arithmetic::power2::lemma_pow2;
use vstd::arithmetic::power2::lemma2_to64;
use vstd::arithmetic::div_mod::lemma_mul_mod_noop_general;
use vstd::arithmetic::mul::lemma_mul_inequality;
use crate::arith::mod_exp;
use crate::sampling::sample_witness;

/// The largest odd divisor of `m`: what remains after every factor of two is
/// stripped away.
pub open spec fn odd_part(m: nat) -> nat
    decreases m,
{
    if m == 0 || m % 2 == 1 {
        m
    } else {
        odd_part(m / 2)
    }
}

/// How many factors of two `m` contains.
pub open spec fn twos_exp(m: nat) -> nat
    decreases m,
{
    if m == 0 || m % 2 == 1 {
        0
    } else {
        1 + twos_exp(m / 2)
    }
}

/// The exponent probed at step `j` of the Miller-Rabin test on `n`:
/// `s * 2^j`, where `s` is the odd part of `n - 1`.
pub open spec fn mr_exp(n: u64, j: nat) -> nat {
    (odd_part((n - 1) as nat) * pow(2, j)) as nat
}

/// The value probed at step `j` of the Miller-Rabin test of base `a` on `n`:
/// `a^(s * 2^j) mod n`.
pub open spec fn mr_probe(n: u64, a: u64, j: nat) -> int {
    pow(a as int, mr_exp(n, j)) % (n as int)
}

/// Base `a` clears the Miller-Rabin test for `n`: the first probe is 1 or
/// `n - 1`, or one of the later squarings — strictly before the exponent
/// reaches `n - 1` itself — hits `n - 1`. A base that does not clear the test
/// proves `n` composite.
pub open spec fn witness_passes(n: u64, a: u64) -> bool {
    ||| mr_probe(n, a, 0) == 1
    ||| mr_probe(n, a, 0) == n - 1
    ||| exists|j: nat|
        1 <= j < twos_exp((n - 1) as nat) && #[trigger] mr_probe(n, a, j) == n - 1
}

/// Each probe is the square, modulo `n`, of the one before it.
proof fn lemma_probe_step(n: u64, a: u64, j: nat)
    requires
        n >= 2,
    ensures
        mr_probe(n, a, j + 1) == (mr_probe(n, a, j) * mr_probe(n, a, j)) % (n as int),
{
    let s = odd_part((n - 1) as nat);
    lemma_pow_positive(2, j);
    lemma_pow_positive(2, j + 1);
    assert(pow(2, j + 1) == 2 * pow(2, j)) by {
        lemma_pow1(2);
        lemma_pow_adds(2, 1, j);
    }
    assert(s * pow(2, j + 1) == (s * pow(2, j)) + (s * pow(2, j))) by (nonlinear_arith)
        requires
            pow(2, j + 1) == 2 * pow(2, j),
    ;
    lemma_pow_adds(a as int, mr_exp(n, j), mr_exp(n, j));
    lemma_mul_mod_noop_general(
        pow(a as int, mr_exp(n, j)),
        pow(a as int, mr_exp(n, j)),
        n as int,
    );
}

/// An exponent `e` with `2^e` no larger than a `u64` value is below 64.
proof fn lemma_exp_fits(e: nat, bound: int)
    requires
        pow(2, e) <= bound,
        bound < 0x10000000000000000,
    ensures
        e < 64,
{
    if e >= 64 {
        lemma_pow_increases(2, 64, e);
        lemma_pow2(64);
        lemma2_to64();
    }
}

/// One deterministic round of the Miller-Rabin test: does base `a` clear the
/// test for `n`? The decomposition `n - 1 = 2^r * s` with `s` odd, the first
/// probe `a^s mod n`, and up to `r - 1` further squarings are all computed
/// here; the result is exactly `witness_passes(n, a)`.
pub fn miller_rabin_witness(n: u64, a: u64) -> (r: bool)
    requires
        n >= 5,
    ensures
        r == witness_passes(n, a),
{
    let ghost nm1 = (n - 1) as nat;
    let mut s: u64 = n - 1;
    let mut r_count: u64 = 0;
    proof {
        lemma_pow0(2);
    }
    while s % 2 == 0
        invariant
            n >= 5,
            1 <= s <= n - 1,
            nm1 == (n - 1) as nat,
            odd_part(s as nat) == odd_part(nm1),
            twos_exp(nm1) == r_count + twos_exp(s as nat),
            pow(2, r_count as nat) * (s as int) == nm1 as int,
            r_count <= 63,
        decreases s,
    {
        proof {
            lemma_pow_positive(2, r_count as nat);
            assert(pow(2, (r_count + 1) as nat) == 2 * pow(2, r_count as nat)) by {
                lemma_pow1(2);
                lemma_pow_adds(2, 1, r_count as nat);
            }
            assert(pow(2, (r_count + 1) as nat) * ((s / 2) as int) == nm1 as int)
                by (nonlinear_arith)
                requires
                    pow(2, (r_count + 1) as nat) == 2 * pow(2, r_count as nat),
                    s % 2 == 0,
                    s >= 1,
                    pow(2, r_count as nat) * (s as int) == nm1 as int,
            ;
            lemma_mul_inequality(1, (s / 2) as int, pow(2, (r_count + 1) as nat));
            lemma_exp_fits((r_count + 1) as nat, nm1 as int);
        }
        r_count = r_count + 1;
        s = s / 2;
    }
    proof {
        lemma_pow0(2);
        assert(mr_exp(n, 0) == s as nat);
    }
    let mut x: u64 = mod_exp(a, s, n);
    if x == 1 {
        return true;
    }
    if x == n - 1 {
        return true;
    }
    let mut k: u64 = 0;
    while k + 1 < r_count
        invariant
            n >= 5,
            k <= 63,
            r_count <= 63,
            r_count == twos_exp((n - 1) as nat),
            x < n,
            x as int == mr_probe(n, a, k as nat),
            mr_probe(n, a, 0) != 1,
            forall|j: nat| j <= k as nat ==> #[trigger] mr_probe(n, a, j) != (n - 1) as int,
        decreases r_count - k,
    {
        let ghost x_old = x as int;
        let ghost k_old = k as nat;
        x = mod_exp(x, 2, n);
        k = k + 1;
        proof {
            lemma_probe_step(n, a, k_old);
            lemma_square_is_pow2(x_old);
        }
        if x == n - 1 {
            assert(witness_passes(n, a)) by {
                assert(1 <= k as nat && (k as nat) < twos_exp((n - 1) as nat) && mr_probe(
                    n,
                    a,
                    k as nat,
                ) == (n - 1) as int);
            }
            return true;
        }
    }
    false
}

/// Miller-Rabin primality test with `k` independent random bases.
///
/// Values at most 1, and 4, are never prime; 2 and 3 always are. For larger
/// `n` the verdict is probabilistic: a `true` may be wrong with probability at
/// most `4^-k`, but each verdict is backed by concrete evidence — a `false`
/// by a base that failed the witness test (and no base can fail it when `n`
/// is prime), a `true` with at least one round by a base that cleared it (and
/// for many small composites no base in range can, so `false` is certain).
pub fn is_prime(n: u64, k: u64) -> (r: bool)
    ensures
        (n <= 1 || n == 4) ==> r == false,
        (n == 2 || n == 3) ==> r == true,
        !r ==> (n <= 1 || n == 4 || exists|a: u64|
            2 <= a <= n - 3 && !(#[trigger] witness_passes(n, a))),
        (r && n >= 5 && k >= 1) ==> exists|a: u64|
            2 <= a <= n - 3 && #[trigger] witness_passes(n, a),
        (n >= 5 && k == 0) ==> r == true,
{
    if n <= 1 || n == 4 {
        return false;
    }
    if n <= 3 {
        return true;
    }
    let mut i: u64 = 0;
    while i < k
        invariant
            n >= 5,
            i <= k,
            i >= 1 ==> exists|a: u64| 2 <= a <= n - 3 && #[trigger] witness_passes(n, a),
        decreases k - i,
    {
        let a = sample_witness(n);
        if !miller_rabin_witness(n, a) {
            return false;
        }
        i = i + 1;
    }
    true
}

} // verus!
