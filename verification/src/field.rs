//! Field arithmetic for the prime field: extended Euclidean GCD and the
//! modular inverse, together with normalized modular helpers used by the
//! polynomial and interpolation code.

use vstd::arithmetic::div_mod::{
    lemma_fundamental_div_mod, lemma_mod_multiples_vanish, lemma_mul_mod_noop_general,
    lemma_mul_mod_noop_right, lemma_small_mod,
};
use vstd::prelude::*;

verus! {

/// Greatest common divisor by the Euclidean recursion; `gcd_spec(a, 0) == a`.
pub open spec fn gcd_spec(a: int, b: int) -> int
    decreases b,
{
    if b <= 0 {
        a
    } else {
        gcd_spec(b, a % b)
    }
}

/// Extended Euclidean GCD. The first member of the returned triplet is the
/// GCD of `a` and `b`; the other two are Bezout coefficients for it.
pub fn gcd(a: i64, b: i64) -> (r: (i64, i64, i64))
    requires
        a >= 0,
        b >= 0,
    ensures
        r.0 == gcd_spec(a as int, b as int),
        r.0 == r.1 * a + r.2 * b,
        r.0 >= 0,
        b == 0 ==> r.1 == 1 && r.2 == 0,
        b >= 1 ==> -b <= r.1 <= b,
        -(if a >= 1 { a as int } else { 1int }) <= r.2 <= (if a >= 1 { a as int } else { 1int }),
    decreases b,
{
    if b == 0 {
        (a, 1, 0)
    } else {
        let n = a / b;
        let c = a % b;
        let r = gcd(b, c);
        proof {
            assert(a == b * n + c) by {
                lemma_fundamental_div_mod(a as int, b as int);
            }
            assert(r.0 == r.2 * a + (r.1 - r.2 * n) * b) by (nonlinear_arith)
                requires
                    r.0 == r.1 * b + r.2 * c,
                    a == b * n + c,
            ;
            if c == 0 {
                assert(r.1 == 1 && r.2 == 0);
                assert(r.2 * n == 0) by (nonlinear_arith)
                    requires
                        r.2 == 0,
                ;
            } else {
                assert(-(b * n) <= r.2 * n <= b * n) by (nonlinear_arith)
                    requires
                        -b <= r.2 <= b,
                        n >= 0,
                ;
                assert(b * n == a - c) by {
                    lemma_fundamental_div_mod(a as int, b as int);
                }
                assert(-a + c - c <= r.1 - r.2 * n <= a - c + c);
            }
        }
        (r.0, r.2, r.1 - r.2 * n)
    }
}

/// The unique `r` in `[0, m)` with `r == a mod m`, for any signed `a`.
pub(crate) fn norm_mod(a: i64, m: i64) -> (r: i64)
    requires
        m >= 1,
    ensures
        r == (a as int) % (m as int),
        0 <= r < m,
{
    let am: i128 = a as i128;
    let mm: i128 = m as i128;
    if am >= 0 {
        (am % mm) as i64
    } else {
        let t: i128 = (-am) % mm;
        proof {
            let na: int = -(am as int);
            let mi: int = mm as int;
            let q: int = na / mi;
            lemma_fundamental_div_mod(na, mi);
            assert(na == mi * q + t);
            if t == 0 {
                assert(am as int == mi * (-q) + 0) by (nonlinear_arith)
                    requires
                        na == mi * q + 0,
                        na == -(am as int),
                ;
                assert((am as int) % mi == 0) by {
                    lemma_mod_multiples_vanish(-q, 0, mi);
                    lemma_small_mod(0nat, mi as nat);
                }
            } else {
                assert(am as int == mi * (-q - 1) + (mi - t)) by (nonlinear_arith)
                    requires
                        na == mi * q + t,
                        na == -(am as int),
                ;
                assert((am as int) % mi == (mi - t as int) % mi) by {
                    lemma_mod_multiples_vanish(-q - 1, mi - t as int, mi);
                }
                assert((mi - t as int) % mi == mi - t as int) by {
                    lemma_small_mod((mm - t) as nat, mm as nat);
                }
            }
        }
        if t == 0 {
            0
        } else {
            (mm - t) as i64
        }
    }
}

/// `(a * b) mod m` for `a`, `b` already in `[0, m)`, with a widened product
/// so that no prime within `i64` range can overflow the multiplication.
pub(crate) fn mul_mod(a: i64, b: i64, m: i64) -> (r: i64)
    requires
        m >= 1,
        0 <= a < m,
        0 <= b < m,
    ensures
        r == (a * b) % (m as int),
        0 <= r < m,
{
    let am: i128 = a as i128;
    let bm: i128 = b as i128;
    let mm: i128 = m as i128;
    proof {
        assert(0 <= am * bm <= (i64::MAX as i128) * (i64::MAX as i128)) by (nonlinear_arith)
            requires
                0 <= am <= i64::MAX as i128,
                0 <= bm <= i64::MAX as i128,
        ;
    }
    ((am * bm) % mm) as i64
}

/// `(a + b) mod m` for `a`, `b` already in `[0, m)`, phrased so that the sum
/// itself is never formed and so cannot overflow.
pub(crate) fn add_mod(a: i64, b: i64, m: i64) -> (r: i64)
    requires
        m >= 1,
        0 <= a < m,
        0 <= b < m,
    ensures
        r == (a + b) % (m as int),
        0 <= r < m,
{
    proof {
        if a + b < m {
            lemma_small_mod((a + b) as nat, m as nat);
        } else {
            lemma_mod_multiples_vanish(1, a + b - m, m as int);
            lemma_small_mod((a + b - m) as nat, m as nat);
        }
    }
    if b < m - a {
        a + b
    } else {
        b - (m - a)
    }
}

/// `(a - b) mod m` for `a`, `b` already in `[0, m)`.
pub(crate) fn sub_mod(a: i64, b: i64, m: i64) -> (r: i64)
    requires
        m >= 1,
        0 <= a < m,
        0 <= b < m,
    ensures
        r == (a - b) % (m as int),
        0 <= r < m,
{
    proof {
        if a - b >= 0 {
            lemma_small_mod((a - b) as nat, m as nat);
        } else {
            lemma_mod_multiples_vanish(1, a - b, m as int);
            lemma_small_mod((a - b + m) as nat, m as nat);
        }
    }
    if a >= b {
        a - b
    } else {
        a - b + m
    }
}

/// The GCD of any positive number with 1 is 1.
pub proof fn lemma_gcd_of_one(p: int)
    requires
        p >= 1,
    ensures
        gcd_spec(p, 1) == 1,
{
    assert(p % 1 == 0) by {
        vstd::arithmetic::div_mod::lemma_mod_multiples_basic(p, 1);
        assert(p * 1 == p) by (nonlinear_arith);
    }
    assert(gcd_spec(p, 1) == gcd_spec(1, p % 1));
}

/// Bezout coefficients exist for the GCD: `gcd_spec(a, b) == r.0 * a + r.1 * b`.
pub proof fn lemma_bezout(a: int, b: int) -> (r: (int, int))
    requires
        a >= 0,
        b >= 0,
    ensures
        gcd_spec(a, b) == r.0 * a + r.1 * b,
    decreases b,
{
    if b == 0 {
        assert(gcd_spec(a, 0) == 1 * a + 0 * b) by (nonlinear_arith)
            requires
                gcd_spec(a, 0) == a,
        ;
        (1, 0)
    } else {
        let q = a / b;
        let c = a % b;
        let (s, t) = lemma_bezout(b, c);
        lemma_fundamental_div_mod(a, b);
        assert(gcd_spec(b, c) == t * a + (s - t * q) * b) by (nonlinear_arith)
            requires
                gcd_spec(b, c) == s * b + t * c,
                a == b * q + c,
        ;
        (t, s - t * q)
    }
}

/// A residue coprime with the modulus is invertible: when
/// `gcd_spec(m, k) == 1`, the inverse `inv_mod(k, m)` exists and inverts `k`.
pub proof fn lemma_gcd_one_invertible(k: int, m: int)
    requires
        m >= 2,
        0 <= k < m,
        gcd_spec(m, k) == 1,
    ensures
        invertible(k, m),
        0 <= inv_mod(k, m) < m,
        (k * inv_mod(k, m)) % m == 1,
{
    let (s, t) = lemma_bezout(m, k);
    let v = t % m;
    assert(t * k == m * (-s) + 1) by (nonlinear_arith)
        requires
            1 == s * m + t * k,
    ;
    assert((t * k) % m == 1) by {
        lemma_mod_multiples_vanish(-s, 1, m);
        lemma_small_mod(1nat, m as nat);
    }
    assert((v * k) % m == (t * k) % m) by {
        lemma_mul_mod_noop_general(t, k, m);
    }
    assert(k * v == v * k) by (nonlinear_arith);
    lemma_inv_mod_is(k, m, v);
}

/// Holds when `k` has a multiplicative inverse modulo `m`.
pub open spec fn invertible(k: int, m: int) -> bool {
    exists|r: int| 0 <= r < m && #[trigger] ((k * r) % m) == 1
}

/// The multiplicative inverse of `k` modulo `m`, meaningful when
/// `invertible(k, m)` holds; it is then the unique such residue.
pub open spec fn inv_mod(k: int, m: int) -> int {
    choose|r: int| 0 <= r < m && #[trigger] ((k * r) % m) == 1
}

/// A residue inverting `k` modulo `m` is unique within `[0, m)`.
pub proof fn lemma_inverse_unique(k: int, m: int, r1: int, r2: int)
    requires
        m >= 1,
        0 <= r1 < m,
        0 <= r2 < m,
        (k * r1) % m == 1,
        (k * r2) % m == 1,
    ensures
        r1 == r2,
{
    lemma_mul_mod_noop_right(r1, k * r2, m);
    lemma_mul_mod_noop_right(r2, k * r1, m);
    lemma_small_mod(r1 as nat, m as nat);
    lemma_small_mod(r2 as nat, m as nat);
    assert(r1 * 1 == r1 && r2 * 1 == r2) by (nonlinear_arith);
    assert(r1 * (k * r2) == r2 * (k * r1)) by (nonlinear_arith);
}

/// Any residue in `[0, m)` that inverts `k` is exactly `inv_mod(k, m)`.
pub proof fn lemma_inv_mod_is(k: int, m: int, v: int)
    requires
        m >= 1,
        0 <= v < m,
        (k * v) % m == 1,
    ensures
        invertible(k, m),
        inv_mod(k, m) == v,
{
    assert(invertible(k, m));
    let w = choose|r: int| 0 <= r < m && #[trigger] ((k * r) % m) == 1;
    lemma_inverse_unique(k, m, v, w);
}

/// Inverse of `k` in the field defined by `prime`: the unique residue in
/// `[0, prime)` whose product with `k` is 1 modulo `prime`. Declines with
/// `None` exactly when no inverse exists, that is, when `k mod prime` and
/// `prime` have a greatest common divisor other than 1.
pub fn mod_inverse(k: i64, prime: i64) -> (r: Option<i64>)
    requires
        prime >= 2,
    ensures
        r is Some <==> gcd_spec(prime as int, (k as int) % (prime as int)) == 1,
        r matches Some(v) ==> 0 <= v < prime && ((k as int) * v) % (prime as int) == 1,
        r matches Some(v) ==> invertible(k as int, prime as int) && v == inv_mod(
            k as int,
            prime as int,
        ),
{
    let kn = norm_mod(k, prime);
    let (g, s, t) = gcd(prime, kn);
    if g != 1 {
        return None;
    }
    let r0 = if t < 0 {
        t + prime
    } else {
        t % prime
    };
    proof {
        let p: int = prime as int;
        assert(t * kn == p * (-s) + 1) by (nonlinear_arith)
            requires
                1 == s * p + t * kn,
        ;
        assert((t * kn) % p == 1) by {
            lemma_mod_multiples_vanish(-s, 1, p);
            lemma_small_mod(1nat, p as nat);
        }
        assert((r0 as int) % p == (t as int) % p) by {
            if t < 0 {
                lemma_mod_multiples_vanish(1, t as int, p);
                assert(p * 1 + t == r0);
            }
            lemma_small_mod(r0 as nat, p as nat);
        }
        assert(((k as int) * r0) % p == 1) by {
            lemma_mul_mod_noop_general(k as int, r0 as int, p);
            lemma_mul_mod_noop_general(kn as int, t as int, p);
            assert(kn * r0 == r0 * kn && kn * t == t * kn) by (nonlinear_arith);
            lemma_mul_mod_noop_right(kn as int, r0 as int, p);
            lemma_mul_mod_noop_right(kn as int, t as int, p);
        }
        lemma_inv_mod_is(k as int, p, r0 as int);
    }
    Some(r0)
}

} // verus!
