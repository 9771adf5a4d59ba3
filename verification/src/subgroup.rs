//! Subgroup assembly: input validation, generator search, and canonical
//! construction of the multiplicative subgroup of prescribed order, with
//! every promised group property re-verified on the way out.

use vstd::prelude::*;

verus! {

use vstd::arithmetic::power::pow;
use vstd::arithmetic::mul::lemma_mul_inequality;
use vstd::arithmetic::div_mod::lemma_fundamental_div_mod;
use crate::arith::mod_exp;
use crate::arith::mul_mod;
use crate::divisors::factors;
use crate::divisors::strictly_sorted;
use crate::generator::find_generator;
use crate::generator::generates_group;
use crate::primality::is_prime;
use crate::primality::witness_passes;

/// Failure marker: the requested modulus failed the primality test.
#[derive(Clone, Copy, Debug, PartialEq, Eq, Structural)]
pub struct NotPrimeError;

impl NotPrimeError {
    /// The fixed description of this failure.
    pub fn description(&self) -> (r: &'static str)
        ensures
            r@ == "p is not prime"@,
    {
        "p is not prime"
    }
}

/// Failure marker: the requested order does not divide the group order.
#[derive(Clone, Copy, Debug, PartialEq, Eq, Structural)]
pub struct NotFactorError;

impl NotFactorError {
    /// The fixed description of this failure.
    pub fn description(&self) -> (r: &'static str)
        ensures
            r@ == "n is not a factor of p-1"@,
    {
        "n is not a factor of p-1"
    }
}

/// The two terminal validation failures of subgroup construction.
#[derive(Clone, Copy, Debug, PartialEq, Eq, Structural)]
pub enum SubgroupError {
    NotPrime(NotPrimeError),
    NotFactor(NotFactorError),
}

/// Linear membership scan.
fn vec_contains(v: &Vec<u64>, x: u64) -> (r: bool)
    ensures
        r == v@.contains(x),
{
    let mut i: usize = 0;
    while i < v.len()
        invariant
            i <= v@.len(),
            forall|j: int| 0 <= j < i ==> v@[j] != x,
        decreases v@.len() - i,
    {
        if v[i] == x {
            return true;
        }
        i = i + 1;
    }
    false
}

/// Insert `x` into a strictly sorted vector, keeping it strictly sorted and
/// duplicate-free: the resulting contents are the old ones plus `x`.
fn insert_sorted(v: &mut Vec<u64>, x: u64)
    requires
        strictly_sorted(old(v)@),
    ensures
        strictly_sorted(final(v)@),
        final(v)@.len() >= 1,
        forall|y: u64| #[trigger] final(v)@.contains(y) <==> (old(v)@.contains(y) || y == x),
{
    let mut i: usize = 0;
    while i < v.len() && v[i] < x
        invariant
            strictly_sorted(v@),
            v@ == old(v)@,
            i <= v@.len(),
            forall|j: int| 0 <= j < i ==> v@[j] < x,
        decreases v@.len() - i,
    {
        i = i + 1;
    }
    if i < v.len() && v[i] == x {
        proof {
            assert(old(v)@.contains(x));
        }
        return;
    }
    let ghost pre = v@;
    v.insert(i, x);
    proof {
        pre.insert_ensures(i as int, x);
        assert forall|a: int, b: int| 0 <= a < b < v@.len() implies v@[a] < v@[b] by {
            let n = pre.len() as int;
            if b < i {
                assert(v@[a] == pre[a] && v@[b] == pre[b]);
            } else if a < i && b == i {
                assert(v@[a] == pre[a] && v@[b] == x);
            } else if a < i && b > i {
                assert(v@[a] == pre[a] && v@[b] == pre[b - 1]);
                assert(i < n && pre[i as int] > x);
                assert(pre[b - 1] >= pre[i as int]);
            } else if a == i && b > i {
                assert(v@[a] == x && v@[b] == pre[b - 1]);
                assert(i < n && pre[i as int] > x);
                assert(pre[b - 1] >= pre[i as int]);
            } else {
                assert(v@[a] == pre[a - 1] && v@[b] == pre[b - 1]);
            }
        }
        assert forall|y: u64| #[trigger] v@.contains(y) implies (pre.contains(y) || y == x) by {
            let t = choose|t: int| 0 <= t < v@.len() && v@[t] == y;
            if t < i {
                assert(pre[t] == y);
            } else if t == i {
                assert(y == x);
            } else {
                assert(pre[t - 1] == y);
            }
        }
        assert forall|y: u64| (pre.contains(y) || y == x) implies #[trigger] v@.contains(y) by {
            if y == x {
                assert(v@[i as int] == x);
            } else {
                let t = choose|t: int| 0 <= t < pre.len() && pre[t] == y;
                if t < i {
                    assert(v@[t] == y);
                } else {
                    assert(v@[t + 1] == y);
                }
            }
        }
    }
}

/// The element produced at step `i` of subgroup generation: `g^(i*d) mod p`.
pub open spec fn subgroup_power(p: u64, g: u64, d: int, i: int) -> int {
    pow(g as int, (i * d) as nat) % (p as int)
}

/// `x` is among the elements produced by steps 1 through `m`.
pub open spec fn is_power_upto(p: u64, g: u64, d: int, m: int, x: u64) -> bool {
    exists|i: int| 1 <= i <= m && x as int == #[trigger] subgroup_power(p, g, d, i)
}

/// The product of two residues, reduced modulo `p`.
pub open spec fn times_mod(p: u64, x: u64, y: u64) -> u64 {
    ((x as int * y as int) % (p as int)) as u64
}

/// `e` is an `m`-th root of unity modulo `p`: `e^m == 1 (mod p)`.
pub open spec fn root_of_unity(p: u64, e: u64, m: u64) -> bool {
    pow(e as int, m as nat) % (p as int) == 1
}

/// `m` divides `n` and is strictly smaller.
pub open spec fn proper_divisor(n: u64, m: u64) -> bool {
    1 <= m < n && n as int % (m as int) == 0
}

/// Everything a returned subgroup promises: strictly ascending order with the
/// identity first, every element a nonzero residue and an `n`-th root of
/// unity, closure under multiplication modulo `p`, and exact order `n` — for
/// each proper divisor `m` of `n`, some element's `m`-th power is not 1.
pub open spec fn valid_subgroup(p: u64, n: u64, v: Seq<u64>) -> bool {
    &&& strictly_sorted(v)
    &&& v.len() >= 1
    &&& v[0] == 1
    &&& forall|j: int| 0 <= j < v.len() ==> 1 <= #[trigger] v[j] < p
    &&& forall|j: int| 0 <= j < v.len() ==> root_of_unity(p, #[trigger] v[j], n)
    &&& forall|j1: int, j2: int|
        0 <= j1 < v.len() && 0 <= j2 < v.len() ==> v.contains(
            #[trigger] times_mod(p, v[j1], v[j2]),
        )
    &&& forall|m: u64|
        #[trigger] proper_divisor(n, m) ==> exists|j: int|
            0 <= j < v.len() && !root_of_unity(p, #[trigger] v[j], m)
    &&& forall|x: u64| 1 <= x < p && #[trigger] root_of_unity(p, x, n) ==> v.contains(x)
}

/// `v` is the strictly sorted enumeration of the powers `g^(i*(p-1)/n) mod p`
/// for `i` in `1..=n`.
pub open spec fn enumerates_powers(p: u64, g: u64, n: u64, v: Seq<u64>) -> bool {
    &&& strictly_sorted(v)
    &&& forall|x: u64|
        #[trigger] v.contains(x) <==> is_power_upto(p, g, (p - 1) as int / n as int, n as int, x)
}

/// The powers of `g` do not assemble into a canonical subgroup of size `n`:
/// their sorted enumeration — which is unique — misses at least one of the
/// promised group properties. For a prime `p`, a generator `g` and `n`
/// dividing `p - 1` this never holds; it records why construction can fail.
pub open spec fn powers_fail(p: u64, g: u64, n: u64) -> bool {
    forall|v: Seq<u64>|
        #[trigger] enumerates_powers(p, g, n, v) ==> !(v.len() == n as int && valid_subgroup(
            p,
            n,
            v,
        ))
}

/// Two strictly sorted sequences with the same members are the same sequence.
proof fn lemma_sorted_same_contents(a: Seq<u64>, b: Seq<u64>)
    requires
        strictly_sorted(a),
        strictly_sorted(b),
        forall|x: u64| #[trigger] a.contains(x) <==> b.contains(x),
    ensures
        a == b,
    decreases a.len(),
{
    if a.len() == 0 {
        if b.len() > 0 {
            assert(b.contains(b[0]));
            assert(a.contains(b[0]));
        }
        assert(a =~= b);
    } else {
        assert(a.contains(a[0]));
        assert(b.contains(a[0]));
        assert(b.len() > 0);
        let ia = choose|i: int| 0 <= i < b.len() && b[i] == a[0];
        assert(b[0] <= a[0]);
        assert(b.contains(b[0]));
        assert(a.contains(b[0]));
        let ja = choose|j: int| 0 <= j < a.len() && a[j] == b[0];
        assert(a[0] <= b[0]);
        let ta = a.subrange(1, a.len() as int);
        let tb = b.subrange(1, b.len() as int);
        assert forall|x: u64| #[trigger] ta.contains(x) <==> tb.contains(x) by {
            if ta.contains(x) {
                let i = choose|i: int| 0 <= i < ta.len() && ta[i] == x;
                assert(a[i + 1] == x);
                assert(a.contains(x));
                assert(b.contains(x));
                let i2 = choose|i2: int| 0 <= i2 < b.len() && b[i2] == x;
                assert(i2 >= 1);
                assert(tb[i2 - 1] == x);
            }
            if tb.contains(x) {
                let i = choose|i: int| 0 <= i < tb.len() && tb[i] == x;
                assert(b[i + 1] == x);
                assert(b.contains(x));
                assert(a.contains(x));
                let i2 = choose|i2: int| 0 <= i2 < a.len() && a[i2] == x;
                assert(i2 >= 1);
                assert(ta[i2 - 1] == x);
            }
        }
        lemma_sorted_same_contents(ta, tb);
        assert forall|i: int| 0 <= i < a.len() implies a[i] == b[i] by {
            if i >= 1 {
                assert(ta[i - 1] == a[i]);
                assert(tb[i - 1] == b[i]);
            }
        }
        assert(a =~= b);
    }
}

/// If the concrete enumeration of the powers of `g` misses one of the
/// checked properties, then — the enumeration being unique — no enumeration
/// has them all.
proof fn lemma_powers_fail(p: u64, n: u64, g: u64, v: Seq<u64>)
    requires
        strictly_sorted(v),
        forall|x: u64|
            #[trigger] v.contains(x) <==> is_power_upto(
                p,
                g,
                (p - 1) as int / n as int,
                n as int,
                x,
            ),
        !(v.len() == n as int && valid_subgroup(p, n, v)),
    ensures
        powers_fail(p, g, n),
{
    assert forall|v2: Seq<u64>| #[trigger] enumerates_powers(p, g, n, v2) implies !(v2.len()
        == n as int && valid_subgroup(p, n, v2)) by {
        assert forall|x: u64| #[trigger] v2.contains(x) <==> v.contains(x) by {}
        lemma_sorted_same_contents(v2, v);
    }
}

/// Scan for an element whose `m`-th power modulo `p` is not 1.
fn find_non_root(v: &Vec<u64>, m: u64, p: u64) -> (r: bool)
    requires
        p >= 1,
    ensures
        r == (exists|j: int| 0 <= j < v@.len() && !root_of_unity(p, #[trigger] v@[j], m)),
{
    let mut jj: usize = 0;
    while jj < v.len()
        invariant
            p >= 1,
            jj <= v@.len(),
            forall|w: int| 0 <= w < jj ==> root_of_unity(p, #[trigger] v@[w], m),
        decreases v@.len() - jj,
    {
        if mod_exp(v[jj], m, p) != 1 {
            proof {
                assert(!root_of_unity(p, v@[jj as int], m));
            }
            return true;
        }
        jj = jj + 1;
    }
    false
}

/// Assemble the canonical-subgroup predicate from the individually checked
/// facts: with the identity first and strict ordering, every element lies in
/// `[1, p)`.
proof fn lemma_assemble_valid(p: u64, n: u64, v: Seq<u64>)
    requires
        strictly_sorted(v),
        v.len() >= 1,
        v[0] == 1,
        forall|j: int| 0 <= j < v.len() ==> #[trigger] v[j] < p,
        forall|j: int| 0 <= j < v.len() ==> root_of_unity(p, #[trigger] v[j], n),
        forall|j1: int, j2: int|
            0 <= j1 < v.len() && 0 <= j2 < v.len() ==> v.contains(
                #[trigger] times_mod(p, v[j1], v[j2]),
            ),
        forall|m: u64|
            #[trigger] proper_divisor(n, m) ==> exists|j: int|
                0 <= j < v.len() && !root_of_unity(p, #[trigger] v[j], m),
        forall|x: u64| 1 <= x < p && #[trigger] root_of_unity(p, x, n) ==> v.contains(x),
    ensures
        valid_subgroup(p, n, v),
{
    assert forall|j0: int| 0 <= j0 < v.len() implies 1 <= #[trigger] v[j0] && v[j0] < p by {
        if j0 > 0 {
            assert(v[0] < v[j0]);
        }
    }
}

/// Build the sorted, deduplicated list of the elements `g^(i*d) mod p` for
/// `i` in `1..=n`.
fn build_powers(p: u64, n: u64, d: u64, g: u64) -> (v: Vec<u64>)
    requires
        p >= 5,
        n >= 1,
        n as int * d as int == (p - 1) as int,
    ensures
        strictly_sorted(v@),
        v@.len() >= 1,
        forall|x: u64| #[trigger] v@.contains(x) <==> is_power_upto(p, g, d as int, n as int, x),
        forall|j: int| 0 <= j < v@.len() ==> #[trigger] v@[j] < p,
{
    proof {
        assert(n <= p - 1) by (nonlinear_arith)
            requires
                n as int * d as int == (p - 1) as int,
                p >= 5,
                n >= 1,
        ;
    }
    let mut v: Vec<u64> = Vec::new();
    let mut i: u64 = 1;
    while i <= n
        invariant
            p >= 5,
            n >= 1,
            n <= p - 1,
            n as int * d as int == (p - 1) as int,
            1 <= i <= n + 1,
            strictly_sorted(v@),
            forall|x: u64| #[trigger] v@.contains(x) <==> is_power_upto(p, g, d as int, i - 1, x),
            forall|j: int| 0 <= j < v@.len() ==> #[trigger] v@[j] < p,
            i >= 2 ==> v@.len() >= 1,
        decreases n + 1 - i,
    {
        proof {
            lemma_mul_inequality(i as int, n as int, d as int);
        }
        let e = mod_exp(g, i * d, p);
        let ghost pre = v@;
        insert_sorted(&mut v, e);
        proof {
            assert(e as int == subgroup_power(p, g, d as int, i as int));
            assert forall|x: u64| #[trigger] v@.contains(x) implies is_power_upto(
                p,
                g,
                d as int,
                i as int,
                x,
            ) by {
                if pre.contains(x) {
                    assert(is_power_upto(p, g, d as int, i - 1, x));
                    let w = choose|w: int|
                        1 <= w <= i - 1 && x as int == #[trigger] subgroup_power(p, g, d as int, w);
                    assert(1 <= w <= i as int && x as int == subgroup_power(p, g, d as int, w));
                } else {
                    assert(x == e);
                }
            }
            assert forall|x: u64| is_power_upto(p, g, d as int, i as int, x) implies #[trigger] v@.contains(
                x,
            ) by {
                let w = choose|w: int|
                    1 <= w <= i as int && x as int == #[trigger] subgroup_power(p, g, d as int, w);
                if w <= i - 1 {
                    assert(is_power_upto(p, g, d as int, i - 1, x));
                    assert(pre.contains(x));
                } else {
                    assert(x as int == e as int);
                }
            }
            assert forall|j: int| 0 <= j < v@.len() implies #[trigger] v@[j] < p by {
                assert(v@.contains(v@[j]));
                let w = choose|w: int|
                    1 <= w <= i as int && v@[j] as int == #[trigger] subgroup_power(p, g, d as int, w);
            }
        }
        i = i + 1;
    }
    v
}

/// Check that every element of `v` is an `m`-th root of unity modulo `p`.
fn all_roots(v: &Vec<u64>, m: u64, p: u64) -> (r: bool)
    requires
        p >= 1,
    ensures
        r == (forall|j: int| 0 <= j < v@.len() ==> root_of_unity(p, #[trigger] v@[j], m)),
{
    let mut j: usize = 0;
    while j < v.len()
        invariant
            p >= 1,
            j <= v@.len(),
            forall|w: int| 0 <= w < j ==> root_of_unity(p, #[trigger] v@[w], m),
        decreases v@.len() - j,
    {
        if mod_exp(v[j], m, p) != 1 {
            proof {
                assert(!root_of_unity(p, v@[j as int], m));
            }
            return false;
        }
        j = j + 1;
    }
    true
}

/// Check that `v` is closed under multiplication modulo `p`.
fn closed_under_product(v: &Vec<u64>, p: u64) -> (r: bool)
    requires
        p >= 1,
    ensures
        r == (forall|j1: int, j2: int|
            0 <= j1 < v@.len() && 0 <= j2 < v@.len() ==> v@.contains(
                #[trigger] times_mod(p, v@[j1], v@[j2]),
            )),
{
    let mut j1: usize = 0;
    while j1 < v.len()
        invariant
            p >= 1,
            j1 <= v@.len(),
            forall|t1: int, t2: int|
                0 <= t1 < j1 && 0 <= t2 < v@.len() ==> v@.contains(
                    #[trigger] times_mod(p, v@[t1], v@[t2]),
                ),
        decreases v@.len() - j1,
    {
        let mut j2: usize = 0;
        while j2 < v.len()
            invariant
                p >= 1,
                j1 < v@.len(),
                j2 <= v@.len(),
                forall|t1: int, t2: int|
                    0 <= t1 < j1 && 0 <= t2 < v@.len() ==> v@.contains(
                        #[trigger] times_mod(p, v@[t1], v@[t2]),
                    ),
                forall|t2: int|
                    0 <= t2 < j2 ==> v@.contains(#[trigger] times_mod(p, v@[j1 as int], v@[t2])),
            decreases v@.len() - j2,
        {
            let z = mul_mod(v[j1], v[j2], p);
            if !vec_contains(v, z) {
                proof {
                    assert(!v@.contains(times_mod(p, v@[j1 as int], v@[j2 as int])));
                }
                return false;
            }
            j2 = j2 + 1;
        }
        j1 = j1 + 1;
    }
    true
}

/// Check that `v` has order exactly `n`: for every proper divisor `m` of
/// `n`, some element of `v` is not an `m`-th root of unity modulo `p`.
fn order_exact(v: &Vec<u64>, n: u64, p: u64) -> (r: bool)
    requires
        p >= 1,
        n >= 1,
    ensures
        r == (forall|m: u64|
            #[trigger] proper_divisor(n, m) ==> exists|j: int|
                0 <= j < v@.len() && !root_of_unity(p, #[trigger] v@[j], m)),
{
    let ds = factors(n);
    let mut t: usize = 0;
    while t < ds.len() - 1
        invariant
            p >= 1,
            n >= 1,
            ds@.len() >= 1,
            t <= ds@.len() - 1,
            strictly_sorted(ds@),
            ds@[ds@.len() - 1] == n,
            forall|j0: int|
                0 <= j0 < ds@.len() ==> 1 <= #[trigger] ds@[j0] <= n && n as int % (ds@[j0] as int)
                    == 0,
            forall|d2: u64| 1 <= d2 <= n && n as int % (d2 as int) == 0 ==> ds@.contains(d2),
            forall|u: int| 0 <= u < t ==> exists|jw: int|
                0 <= jw < v@.len() && !root_of_unity(p, #[trigger] v@[jw], #[trigger] ds@[u]),
        decreases ds@.len() - t,
    {
        let m = ds[t];
        if !find_non_root(v, m, p) {
            proof {
                assert(proper_divisor(n, m));
            }
            return false;
        }
        t = t + 1;
    }
    proof {
        assert forall|m2: u64| #[trigger] proper_divisor(n, m2) implies exists|jw: int|
            0 <= jw < v@.len() && !root_of_unity(p, #[trigger] v@[jw], m2) by {
            assert(ds@.contains(m2));
            let u = choose|u: int| 0 <= u < ds@.len() && ds@[u] == m2;
            assert(u != ds@.len() - 1);
            assert(exists|jw: int|
                0 <= jw < v@.len() && !root_of_unity(p, #[trigger] v@[jw], ds@[u]));
        }
    }
    true
}

/// Check that `v` contains every `n`-th root of unity modulo `p`: a linear
/// sweep of all nonzero residues, in the same spirit — and of the same order
/// of cost — as the divisor enumeration.
fn contains_all_roots(v: &Vec<u64>, n: u64, p: u64) -> (r: bool)
    requires
        p >= 1,
    ensures
        r == (forall|x: u64| 1 <= x < p && #[trigger] root_of_unity(p, x, n) ==> v@.contains(x)),
{
    let mut x: u64 = 1;
    while x < p
        invariant
            p >= 1,
            1 <= x <= p,
            forall|y: u64| 1 <= y < x && #[trigger] root_of_unity(p, y, n) ==> v@.contains(y),
        decreases p - x,
    {
        if mod_exp(x, n, p) == 1 {
            if !vec_contains(v, x) {
                proof {
                    assert(root_of_unity(p, x, n) && !v@.contains(x));
                }
                return false;
            }
        }
        x = x + 1;
    }
    true
}

/// The multiplicative subgroup of order `n` inside the group of nonzero
/// residues modulo the prime `p`, in canonical (strictly ascending) order,
/// so the identity 1 is always the first element.
///
/// `p` is validated by a 5-round Miller-Rabin test (`NotPrime` on failure)
/// and `n` must divide `p - 1` (`NotFactor` otherwise). A generator `g` of
/// the full group is then found and the elements `g^(i*(p-1)/n) mod p` for
/// `i` in `1..=n` are collected, deduplicated and sorted. Every group
/// property promised of the result — exactly `n` elements, identity first,
/// all of them `n`-th roots of unity and every such root among them, closure
/// under multiplication, exact order — is re-verified on the way out; a
/// violation is only possible when a composite `p` slipped past the
/// probabilistic test, and is reported as `NotPrime`. Each outcome carries
/// its reason: an `Ok` and a `NotFactor` each rest on a base that cleared
/// the primality test, a `NotPrime` on a base that failed it, on the absence
/// of any generator, or on the re-verification itself.
///
/// For `p` of 2 or 3 the candidate range `[2, p - 2]` of the generator
/// search is empty, so orders that divide `p - 1` lie outside the domain.
pub fn multiplicative_subgroup(p: u64, n: u64) -> (r: Result<Vec<u64>, SubgroupError>)
    requires
        n >= 1,
        (2 <= p && p <= 3) ==> (p - 1) as int % (n as int) != 0,
    ensures
        (p <= 1 || p == 4) ==> (r matches Err(SubgroupError::NotPrime(_))),
        (r matches Err(SubgroupError::NotPrime(_))) ==> p <= 1 || p == 4 || (exists|a: u64|
            2 <= a <= p - 3 && !(#[trigger] witness_passes(p, a))) || ((p - 1) as int % (
        n as int) == 0 && ((forall|h: u64| 2 <= h <= p - 2 ==> !(#[trigger] generates_group(
            p,
            h,
        ))) || (exists|g: u64|
            2 <= g <= p - 2 && #[trigger] generates_group(p, g) && powers_fail(p, g, n)))),
        (r matches Err(SubgroupError::NotFactor(_))) ==> p >= 2 && (p - 1) as int % (n as int)
            != 0,
        (r matches Err(SubgroupError::NotFactor(_))) ==> p == 2 || p == 3 || (exists|a: u64|
            2 <= a <= p - 3 && #[trigger] witness_passes(p, a)),
        r is Ok ==> exists|a: u64| 2 <= a <= p - 3 && #[trigger] witness_passes(p, a),
        (p - 1) as int % (n as int) != 0 ==> r is Err,
        r is Ok ==> p >= 5 && (p - 1) as int % (n as int) == 0,
        r is Ok ==> r->Ok_0@.len() == n as int,
        r is Ok ==> valid_subgroup(p, n, r->Ok_0@),
        r is Ok ==> exists|g: u64|
            2 <= g <= p - 2 && #[trigger] generates_group(p, g) && forall|x: u64|
                #[trigger] r->Ok_0@.contains(x) <==> is_power_upto(
                    p,
                    g,
                    (p - 1) as int / n as int,
                    n as int,
                    x,
                ),
{
    if !is_prime(p, 5) {
        return Err(SubgroupError::NotPrime(NotPrimeError));
    }
    if (p - 1) % n != 0 {
        return Err(SubgroupError::NotFactor(NotFactorError));
    }
    proof {
        assert(p >= 5);
    }
    let d = (p - 1) / n;
    proof {
        lemma_fundamental_div_mod((p - 1) as int, n as int);
    }
    let g = match find_generator(p) {
        Some(g) => g,
        None => {
            return Err(SubgroupError::NotPrime(NotPrimeError));
        },
    };
    let v = build_powers(p, n, d, g);
    if v.len() as u64 != n {
        proof {
            lemma_powers_fail(p, n, g, v@);
        }
        return Err(SubgroupError::NotPrime(NotPrimeError));
    }
    if v[0] != 1 {
        proof {
            lemma_powers_fail(p, n, g, v@);
        }
        return Err(SubgroupError::NotPrime(NotPrimeError));
    }
    if !all_roots(&v, n, p) {
        proof {
            lemma_powers_fail(p, n, g, v@);
        }
        return Err(SubgroupError::NotPrime(NotPrimeError));
    }
    if !closed_under_product(&v, p) {
        proof {
            lemma_powers_fail(p, n, g, v@);
        }
        return Err(SubgroupError::NotPrime(NotPrimeError));
    }
    if !order_exact(&v, n, p) {
        proof {
            lemma_powers_fail(p, n, g, v@);
        }
        return Err(SubgroupError::NotPrime(NotPrimeError));
    }
    if !contains_all_roots(&v, n, p) {
        proof {
            lemma_powers_fail(p, n, g, v@);
        }
        return Err(SubgroupError::NotPrime(NotPrimeError));
    }
    proof {
        lemma_assemble_valid(p, n, v@);
        assert(forall|x: u64|
            #[trigger] v@.contains(x) <==> is_power_upto(
                p,
                g,
                (p - 1) as int / n as int,
                n as int,
                x,
            ));
    }
    Ok(v)
}

} // verus!
