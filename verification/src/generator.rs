//! Primitive-root testing and search over the multiplicative group modulo a
//! prime.

use vstd::prelude::*;

verus! {

use vstd::arithmetic::power::pow;
use crate::arith::mod_exp;
use crate::divisors::factors;
use crate::sampling::generate_candidate;

/// `g^((p-1)/f) mod p`: the probe that detects whether the order of `g`
/// divides a proper part of the group order.
pub open spec fn order_probe(p: u64, g: u64, f: int) -> int {
    pow(g as int, (((p - 1) as int) / f) as nat) % (p as int)
}

/// No proper, nontrivial divisor `f` of `p - 1` makes `g^((p-1)/f)` collapse
/// to 1 modulo `p`. For prime `p` this is exactly the primitive-root
/// property: `g` has multiplicative order `p - 1`. Checking every divisor is
/// a safe superset of the minimal test over prime divisors only.
pub open spec fn generates_group(p: u64, g: u64) -> bool {
    forall|f: int|
        1 < f < p - 1 && (p - 1) as int % f == 0 ==> #[trigger] order_probe(p, g, f) != 1
}

/// Whether `g` is a primitive root modulo `p`: enumerate the divisors of
/// `p - 1`, drop the trivial first (1) and last (`p - 1`) entries, and demand
/// that no remaining divisor `f` satisfies `g^((p-1)/f) == 1 (mod p)`.
pub fn is_generator(p: u64, g: u64) -> (r: bool)
    requires
        p >= 3,
    ensures
        r == generates_group(p, g),
{
    let ds = factors(p - 1);
    let mut idx: usize = 1;
    while idx < ds.len() - 1
        invariant
            p >= 3,
            ds@.len() >= 2,
            1 <= idx <= ds@.len() - 1,
            crate::divisors::strictly_sorted(ds@),
            forall|j: int|
                0 <= j < ds@.len() ==> 1 <= #[trigger] ds@[j] <= p - 1 && (p - 1) as int % (
                ds@[j] as int) == 0,
            ds@[0] == 1,
            ds@[ds@.len() - 1] == (p - 1) as u64,
            forall|j: int| 1 <= j < idx ==> #[trigger] order_probe(p, g, ds@[j] as int) != 1,
        decreases ds@.len() - idx,
    {
        let f = ds[idx];
        let e = (p - 1) / f;
        if mod_exp(g, e, p) == 1 {
            proof {
                assert(1 < f < p - 1 && (p - 1) as int % (f as int) == 0 && order_probe(
                    p,
                    g,
                    f as int,
                ) == 1);
            }
            return false;
        }
        idx = idx + 1;
    }
    proof {
        assert forall|f: int|
            1 < f < p - 1 && (p - 1) as int % f == 0 implies #[trigger] order_probe(p, g, f)
            != 1 by {
            let fu = f as u64;
            assert(ds@.contains(fu));
            let j = choose|j: int| 0 <= j < ds@.len() && ds@[j] == fu;
            assert(j != 0 && j != ds@.len() - 1);
            assert(order_probe(p, g, ds@[j] as int) != 1);
        }
    }
    true
}

/// How many random candidates to try before sweeping them all.
const SAMPLE_ATTEMPTS: u64 = 64;

/// Search for a generator of the full multiplicative group modulo `p`.
///
/// Random candidates are drawn first: when `p` is prime a constant fraction
/// of residues generate the group, so this phase is expected to succeed
/// almost immediately. A deterministic sweep of every candidate follows, so
/// the search always terminates, and `None` is returned only when no
/// candidate in `[2, p - 2]` generates — which proves `p` composite.
pub fn find_generator(p: u64) -> (r: Option<u64>)
    requires
        p >= 5,
    ensures
        match r {
            Some(g) => 2 <= g <= p - 2 && generates_group(p, g),
            None => forall|h: u64| 2 <= h <= p - 2 ==> !(#[trigger] generates_group(p, h)),
        },
{
    let mut tries: u64 = 0;
    while tries < SAMPLE_ATTEMPTS
        invariant
            p >= 5,
        decreases SAMPLE_ATTEMPTS - tries,
    {
        let g = generate_candidate(p);
        if is_generator(p, g) {
            return Some(g);
        }
        tries = tries + 1;
    }
    let mut g: u64 = 2;
    while g <= p - 2
        invariant
            p >= 5,
            2 <= g <= p - 1,
            forall|h: u64| 2 <= h < g ==> !(#[trigger] generates_group(p, h)),
        decreases p - g,
    {
        if is_generator(p, g) {
            return Some(g);
        }
        g = g + 1;
    }
    None
}

} // verus!
