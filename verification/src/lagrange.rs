//! Lagrange interpolation at zero over the prime field: the reconstruction
//! step of the scheme. For shares `(x_i, y_i)` it accumulates
//! `y_i * (prod of the other x_j) * inverse(prod of x_j - x_i)` modulo the
//! prime, which is the constant term of the interpolating polynomial.

use crate::field::{
    add_mod, gcd_spec, inv_mod, mod_inverse, mul_mod, norm_mod, sub_mod,
};
use vstd::arithmetic::div_mod::{
    lemma_mul_mod_noop_general, lemma_small_mod, lemma_sub_mod_noop,
};
use vstd::prelude::*;

verus! {

/// Product of `ps[j]` over `j` in `[0, n)` with `j != i`.
pub open spec fn prod_except_upto(ps: Seq<i64>, i: int, n: int) -> int
    decreases n,
{
    if n <= 0 {
        1
    } else if n - 1 == i {
        prod_except_upto(ps, i, n - 1)
    } else {
        prod_except_upto(ps, i, n - 1) * ps[n - 1]
    }
}

/// The Lagrange numerator for share `i`: the product of all the other
/// interpolation points.
pub open spec fn numerator_prod(ps: Seq<i64>, i: int) -> int {
    prod_except_upto(ps, i, ps.len() as int)
}

/// Product of `ps[j] - ps[i]` over `j` in `[0, n)` with `j != i`.
pub open spec fn diff_prod_upto(ps: Seq<i64>, i: int, n: int) -> int
    decreases n,
{
    if n <= 0 {
        1
    } else if n - 1 == i {
        diff_prod_upto(ps, i, n - 1)
    } else {
        diff_prod_upto(ps, i, n - 1) * (ps[n - 1] - ps[i])
    }
}

/// The Lagrange denominator for share `i`: the product of the differences
/// between the other points and point `i`.
pub open spec fn denominator_prod(ps: Seq<i64>, i: int) -> int {
    diff_prod_upto(ps, i, ps.len() as int)
}

/// The denominator for share `i` has an inverse modulo `p`; with a true
/// prime `p` and pairwise distinct points this always holds.
pub open spec fn denominator_invertible(ps: Seq<i64>, i: int, p: int) -> bool {
    gcd_spec(p, denominator_prod(ps, i) % p) == 1
}

/// Every share's denominator has an inverse modulo `p`.
pub open spec fn all_denominators_invertible(ps: Seq<i64>, p: int) -> bool {
    forall|i: int| 0 <= i < ps.len() ==> #[trigger] denominator_invertible(ps, i, p)
}

/// Share `i`'s contribution to the interpolation at zero, reduced into
/// `[0, p)`.
pub open spec fn lagrange_term(ps: Seq<i64>, vs: Seq<i64>, i: int, p: int) -> int {
    (vs[i] * numerator_prod(ps, i) * inv_mod(denominator_prod(ps, i) % p, p)) % p
}

/// The interpolation value at zero accumulated over the first `n` shares,
/// reduced into `[0, p)` at each step.
pub open spec fn lagrange_sum_upto(ps: Seq<i64>, vs: Seq<i64>, p: int, n: int) -> int
    decreases n,
{
    if n <= 0 {
        0
    } else {
        (lagrange_sum_upto(ps, vs, p, n - 1) + lagrange_term(ps, vs, n - 1, p)) % p
    }
}

/// The Lagrange interpolation of the shares `(ps[i], vs[i])` at `x == 0`.
pub open spec fn lagrange_at_zero(ps: Seq<i64>, vs: Seq<i64>, p: int) -> int {
    lagrange_sum_upto(ps, vs, p, ps.len() as int)
}

/// Interpolates the shares `(points[i], values[i])` at `x == 0` modulo
/// `prime`. Declines with `None` exactly when some share's denominator has
/// no inverse modulo `prime` (a repeated point, or a modulus that is not
/// coprime with the differences).
pub fn lagrange_interpolation_at_zero(points: &[i64], values: &[i64], prime: i64) -> (r: Option<
    i64,
>)
    requires
        prime >= 2,
        points@.len() == values@.len(),
    ensures
        r is Some <==> all_denominators_invertible(points@, prime as int),
        r matches Some(v) ==> v == lagrange_at_zero(points@, values@, prime as int),
        r matches Some(v) ==> 0 <= v < prime,
{
    let ghost p: int = prime as int;
    let ghost ps = points@;
    let ghost vs = values@;
    let len = values.len();
    let mut acc: i64 = 0;
    let mut i: usize = 0;
    while i < len
        invariant
            prime >= 2,
            p == prime as int,
            ps == points@,
            vs == values@,
            len == vs.len(),
            ps.len() == vs.len(),
            i <= len,
            0 <= acc < prime,
            acc == lagrange_sum_upto(ps, vs, p, i as int),
            forall|j: int| 0 <= j < i ==> #[trigger] denominator_invertible(ps, j, p),
        decreases len - i,
    {
        let xi = points[i];
        let yi = values[i];
        let xi_n = norm_mod(xi, prime);
        let mut num: i64 = 1;
        let mut denum: i64 = 1;
        let mut j: usize = 0;
        proof {
            lemma_small_mod(1nat, prime as nat);
        }
        while j < len
            invariant
                prime >= 2,
                p == prime as int,
                ps == points@,
                len == ps.len(),
                i < len,
                j <= len,
                xi == ps[i as int],
                xi_n == (xi as int) % p,
                0 <= xi_n < prime,
                0 <= num < prime,
                0 <= denum < prime,
                num == prod_except_upto(ps, i as int, j as int) % p,
                denum == diff_prod_upto(ps, i as int, j as int) % p,
            decreases len - j,
        {
            if j != i {
                let xj = points[j];
                let xj_n = norm_mod(xj, prime);
                let d = sub_mod(xj_n, xi_n, prime);
                proof {
                    let np = prod_except_upto(ps, i as int, j as int);
                    let dp = diff_prod_upto(ps, i as int, j as int);
                    // num * (xj % p) % p == (np * xj) % p
                    lemma_mul_mod_noop_general(np, xj as int, p);
                    // d == (xj - xi) % p from the normalized residues
                    lemma_sub_mod_noop(xj as int, xi as int, p);
                    // denum * d % p == (dp * (xj - xi)) % p
                    lemma_mul_mod_noop_general(dp, xj - xi, p);
                }
                num = mul_mod(num, xj_n, prime);
                denum = mul_mod(denum, d, prime);
            }
            j = j + 1;
        }
        let inv = match mod_inverse(denum, prime) {
            Some(inv) => inv,
            None => {
                proof {
                    lemma_small_mod(denum as nat, prime as nat);
                    assert(!denominator_invertible(ps, i as int, p));
                }
                return None;
            },
        };
        let yi_n = norm_mod(yi, prime);
        let t1 = mul_mod(yi_n, num, prime);
        let term = mul_mod(t1, inv, prime);
        proof {
            lemma_small_mod(denum as nat, prime as nat);
            let np = numerator_prod(ps, i as int);
            let dp = denominator_prod(ps, i as int);
            // inv is the inverse of the reduced denominator
            assert(inv == inv_mod(dp % p, p));
            // t1 == (yi * np) % p
            lemma_mul_mod_noop_general(yi as int, np, p);
            // term == ((yi * np) * inv) % p == lagrange_term
            lemma_mul_mod_noop_general(yi * np, inv as int, p);
            lemma_small_mod(inv as nat, prime as nat);
            assert(term == lagrange_term(ps, vs, i as int, p));
        }
        acc = add_mod(acc, term, prime);
        i = i + 1;
    }
    Some(acc)
}

} // verus!
