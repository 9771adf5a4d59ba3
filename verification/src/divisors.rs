//! Divisor enumeration and the divisibility predicate that the rest of the
//! library phrases its checks with.

use vstd::prelude::*;

verus! {

/// A sequence is strictly ascending: every earlier entry is smaller.
pub open spec fn strictly_sorted(s: Seq<u64>) -> bool {
    forall|i: int, j: int| 0 <= i < j < s.len() ==> s[i] < s[j]
}

/// Whether `factor` evenly divides `number`, in the mathematical sense:
/// some integer multiple of `factor` equals `number`. Computed on absolute
/// values widened to 64 bits, so every pair with a nonzero divisor is decided
/// exactly, signs and `i32::MIN` included.
pub fn is_factor(factor: i32, number: i32) -> (r: bool)
    requires
        factor != 0,
    ensures
        r == (exists|q: int| number as int == #[trigger] (factor as int * q)),
{
    let f: i64 = if factor < 0 {
        -(factor as i64)
    } else {
        factor as i64
    };
    let m: i64 = if number < 0 {
        -(number as i64)
    } else {
        number as i64
    };
    let rem: i64 = m % f;
    proof {
        let x = number as int;
        let b = factor as int;
        let fi = f as int;
        let mi = m as int;
        if rem == 0 {
            vstd::arithmetic::div_mod::lemma_fundamental_div_mod(mi, fi);
            let q0 = mi / fi;
            let q = if (x < 0) == (b < 0) {
                q0
            } else {
                -q0
            };
            assert(x == b * q) by (nonlinear_arith)
                requires
                    mi == fi * q0,
                    mi == (if x < 0 {
                        -x
                    } else {
                        x
                    }),
                    fi == (if b < 0 {
                        -b
                    } else {
                        b
                    }),
                    q == (if (x < 0) == (b < 0) {
                        q0
                    } else {
                        -q0
                    }),
            ;
        } else {
            assert forall|q: int| x != #[trigger] (b * q) by {
                if x == b * q {
                    let qa = if q < 0 {
                        -q
                    } else {
                        q
                    };
                    assert(mi == qa * fi) by (nonlinear_arith)
                        requires
                            x == b * q,
                            mi == (if x < 0 {
                                -x
                            } else {
                                x
                            }),
                            fi == (if b < 0 {
                                -b
                            } else {
                                b
                            }),
                            qa == (if q < 0 {
                                -q
                            } else {
                                q
                            }),
                    ;
                    vstd::arithmetic::div_mod::lemma_mod_multiples_basic(qa, fi);
                }
            }
        }
    }
    rem == 0
}

/// Every positive divisor of `k`, in strictly ascending order. The list always
/// starts at 1 and ends at `k` itself.
pub fn factors(k: u64) -> (r: Vec<u64>)
    requires
        k >= 1,
    ensures
        strictly_sorted(r@),
        forall|j: int| 0 <= j < r@.len() ==> 1 <= #[trigger] r@[j] <= k && k as int % (r@[j] as int) == 0,
        forall|d: u64| 1 <= d <= k && k as int % (d as int) == 0 ==> r@.contains(d),
        r@.len() >= 1,
        r@[0] == 1,
        r@[r@.len() - 1] == k,
{
    let mut r: Vec<u64> = Vec::new();
    let mut i: u64 = 1;
    while i < k
        invariant
            1 <= i <= k,
            strictly_sorted(r@),
            forall|j: int| 0 <= j < r@.len() ==> 1 <= #[trigger] r@[j] < i && k as int % (r@[j] as int) == 0,
            forall|d: u64| 1 <= d < i && k as int % (d as int) == 0 ==> r@.contains(d),
            i >= 2 ==> r@.len() >= 1 && r@[0] == 1,
        decreases k - i,
    {
        let ghost prev = r@;
        if k % i == 0 {
            r.push(i);
        }
        proof {
            assert forall|d: u64| 1 <= d <= i && k as int % (d as int) == 0 implies r@.contains(
                d,
            ) by {
                if d < i {
                    assert(prev.contains(d));
                    let idx = choose|idx: int| 0 <= idx < prev.len() && prev[idx] == d;
                    assert(r@[idx] == d);
                } else {
                    assert(r@[r@.len() - 1] == i);
                }
            }
        }
        i += 1;
    }
    let ghost prev = r@;
    r.push(k);
    proof {
        vstd::arithmetic::div_mod::lemma_mod_self_0(k as int);
        assert(r@[0] == 1);
        assert forall|d: u64| 1 <= d <= k && k as int % (d as int) == 0 implies r@.contains(d) by {
            if d < k {
                assert(prev.contains(d));
                let idx = choose|idx: int| 0 <= idx < prev.len() && prev[idx] == d;
                assert(r@[idx] == d);
            } else {
                assert(r@[r@.len() - 1] == k);
            }
        }
    }
    r
}

} // verus!
