//! Polynomial evaluation over the prime field by Horner's method.

use crate::field::{add_mod, mul_mod, norm_mod};
use vstd::arithmetic::div_mod::{
    lemma_add_mod_noop, lemma_mul_mod_noop_general, lemma_small_mod,
};
use vstd::prelude::*;

verus! {

/// The exact integer value of the polynomial with the given coefficients at
/// `x`; index 0 is the low-degree (constant) term.
pub open spec fn poly_eval(coeffs: Seq<i64>, x: int) -> int
    decreases coeffs.len(),
{
    if coeffs.len() == 0 {
        0
    } else {
        coeffs[0] + x * poly_eval(coeffs.subrange(1, coeffs.len() as int), x)
    }
}

/// Evaluates the polynomial at `x` modulo `modulo`, iterating the
/// coefficients from the highest index down to the constant term.
pub fn poly_curve_eval(coefficients: &Vec<i64>, x: u8, modulo: i64) -> (r: i64)
    requires
        modulo >= 2,
        forall|i: int|
            0 <= i < coefficients@.len() ==> 0 <= #[trigger] coefficients@[i] < modulo,
    ensures
        r == poly_eval(coefficients@, x as int) % (modulo as int),
        0 <= r < modulo,
{
    let n = coefficients.len();
    let xn = norm_mod(x as i64, modulo);
    let mut accu: i64 = 0;
    let mut k: usize = 0;
    proof {
        assert(coefficients@.subrange(n as int, n as int) =~= Seq::<i64>::empty());
        lemma_small_mod(0nat, modulo as nat);
    }
    while k < n
        invariant
            k <= n,
            n == coefficients@.len(),
            modulo >= 2,
            xn == (x as int) % (modulo as int),
            0 <= xn < modulo,
            forall|i: int|
                0 <= i < coefficients@.len() ==> 0 <= #[trigger] coefficients@[i] < modulo,
            0 <= accu < modulo,
            accu == poly_eval(coefficients@.subrange(n - k, n as int), x as int) % (
            modulo as int),
        decreases n - k,
    {
        let c = coefficients[n - 1 - k];
        let t = mul_mod(accu, xn, modulo);
        let next = add_mod(t, c, modulo);
        proof {
            let s = coefficients@;
            let m: int = modulo as int;
            let xi: int = x as int;
            let tail = s.subrange(n - k, n as int);
            let head = s.subrange(n - k - 1, n as int);
            let p = poly_eval(tail, xi);
            assert(head.subrange(1, head.len() as int) =~= tail);
            assert(poly_eval(head, xi) == s[n - k - 1] + xi * p);
            // t == (accu * xn) % m with accu == p % m and xn == xi % m,
            // so t == (p * xi) % m.
            assert(t == (p * xi) % m) by {
                lemma_mul_mod_noop_general(p, xi, m);
            }
            // next == (t + c) % m == (p * xi + c) % m.
            assert(next == (p * xi + s[n - k - 1]) % m) by {
                lemma_add_mod_noop(p * xi, s[n - k - 1] as int, m);
                lemma_small_mod(s[n - k - 1] as nat, m as nat);
            }
            assert(xi * p == p * xi) by (nonlinear_arith);
        }
        accu = next;
        k = k + 1;
    }
    proof {
        assert(coefficients@.subrange(0, n as int) =~= coefficients@);
    }
    accu
}

} // verus!
