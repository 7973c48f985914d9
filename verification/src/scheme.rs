//! The secret sharing scheme itself: construction of the random polynomial,
//! share derivation, and reconstruction of the secret from shares.

use crate::field::{
    inv_mod, invertible, lemma_gcd_of_one, lemma_gcd_one_invertible, lemma_inv_mod_is,
    lemma_inverse_unique,
};
use crate::lagrange::{
    all_denominators_invertible, denominator_invertible, denominator_prod, diff_prod_upto,
    lagrange_at_zero, lagrange_interpolation_at_zero, lagrange_sum_upto, lagrange_term,
    numerator_prod, prod_except_upto,
};
use crate::poly::{poly_curve_eval, poly_eval};
use rand::distributions::{Distribution, Uniform};
use rand::thread_rng;
use vstd::arithmetic::div_mod::{
    lemma_add_mod_noop, lemma_add_mod_noop_right, lemma_mod_multiples_vanish,
    lemma_mul_mod_noop_left, lemma_mul_mod_noop_right, lemma_small_mod,
};
use vstd::prelude::*;

verus! {

/// The default field modulus used when construction is given no prime. It is
/// a small prime: a deliberate limitation of this scheme, not a
/// cryptographically sized modulus.
pub const DEFAULT_PRIME: i64 = 6326213;

/// How an operation of the scheme declines an input.
#[derive(Clone, Copy, Debug, PartialEq, Eq, Structural)]
pub enum ShamirError {
    /// The secret is not below the field prime, so splitting it would lose it.
    SecretTooLarge,
    /// A share id of zero was asked for; ids start at 1.
    InvalidShareId,
    /// Fewer share values than the threshold were offered for reconstruction.
    InsufficientShares,
    /// The share ids and share values differ in number.
    MismatchedInputLengths,
    /// Some share's Lagrange denominator has no inverse modulo the prime
    /// (a repeated share id, or a modulus that is not a true prime).
    NonInvertibleDenominator,
}

/// A secret sharing scheme: the prime modulus and the coefficients of the
/// secret polynomial. Index 0 of the coefficients is the secret; the others
/// are drawn at random, one for each further share needed to reach the
/// threshold.
#[derive(Debug)]
pub struct SecretData {
    /// Kept for callers that want to blank the secret out of view; never set
    /// by construction.
    pub secret_data: Option<i64>,
    /// The polynomial's coefficients, all in `[0, prime)`; index 0 is the
    /// secret.
    pub coefficients: Vec<i64>,
    /// The field modulus; every coefficient and share value lies below it.
    pub prime: i64,
}

/// The prime that construction settles on: the given one, or the default.
pub open spec fn chosen_prime(prime: Option<i64>) -> int {
    match prime {
        Some(p) => p as int,
        None => DEFAULT_PRIME as int,
    }
}

/// `r` is the share of scheme `s` with the given id: the id itself paired
/// with the polynomial's value at the id, reduced into `[0, prime)`.
pub open spec fn is_share(s: SecretData, id: u8, r: (i64, i64)) -> bool {
    &&& r.0 == id as int
    &&& r.1 == poly_eval(s.coefficients@, id as int) % (s.prime as int)
}

/// Relies on rand's `Uniform` integer distribution: a sample from
/// `low..high` lies in `[low, high)`.
#[verifier::external_body]
fn sample_uniform(low: i64, high: i64) -> (r: i64)
    requires
        low < high,
    ensures
        low <= r < high,
{
    let between = Uniform::from(low..high);
    let mut rng = thread_rng();
    between.sample(&mut rng)
}

impl SecretData {
    /// The scheme's internal invariant: a usable modulus, at least the
    /// constant coefficient, and every coefficient a canonical residue.
    pub open spec fn wf(self) -> bool {
        &&& self.prime >= 2
        &&& self.coefficients@.len() >= 1
        &&& forall|i: int|
            0 <= i < self.coefficients@.len() ==> 0 <= #[trigger] self.coefficients@[i]
                < self.prime
    }

    /// Builds a scheme for `secret` needing `threshold` shares, over the
    /// given prime or the default one. Declines with `SecretTooLarge`
    /// exactly when the secret is not below the prime; otherwise the
    /// coefficients are the secret followed by `threshold - 1` random values
    /// drawn uniformly from `[1, prime)`.
    pub fn from_secret(secret: i64, threshold: u8, prime: Option<i64>) -> (r: Result<
        SecretData,
        ShamirError,
    >)
        requires
            secret >= 0,
            threshold >= 1,
            prime matches Some(p) ==> p >= 2,
        ensures
            r is Ok <==> secret < chosen_prime(prime),
            r is Err ==> r == Err::<SecretData, ShamirError>(ShamirError::SecretTooLarge),
            r matches Ok(s) ==> {
                &&& s.wf()
                &&& s.prime == chosen_prime(prime)
                &&& s.secret_data is None
                &&& s.coefficients@.len() == threshold as int
                &&& s.coefficients@[0] == secret
                &&& forall|i: int|
                    1 <= i < threshold as int ==> 1 <= #[trigger] s.coefficients@[i] < s.prime
            },
    {
        let prime = match prime {
            Some(num) => num,
            None => DEFAULT_PRIME,
        };
        if secret >= prime {
            return Err(ShamirError::SecretTooLarge);
        }
        let mut coefficients: Vec<i64> = Vec::new();
        coefficients.push(secret);
        let mut k: u8 = 1;
        while k < threshold
            invariant
                1 <= k <= threshold,
                prime >= 2,
                0 <= secret < prime,
                coefficients@.len() == k as int,
                coefficients@[0] == secret,
                forall|i: int| 1 <= i < k as int ==> 1 <= #[trigger] coefficients@[i] < prime,
            decreases threshold as int - k as int,
        {
            let c = sample_uniform(1, prime);
            coefficients.push(c);
            k = k + 1;
        }
        Ok(SecretData { secret_data: None, coefficients, prime })
    }

    /// Derives the share with the given id: `(id, value)` with the value the
    /// polynomial evaluated at the id modulo the prime. Declines with
    /// `InvalidShareId` exactly when the id is zero. For a fixed scheme the
    /// result is a function of the id alone, so repeated calls agree.
    pub fn get_share(&self, id: u8) -> (r: Result<(i64, i64), ShamirError>)
        requires
            self.wf(),
        ensures
            r is Ok <==> id >= 1,
            id == 0 ==> r == Err::<(i64, i64), ShamirError>(ShamirError::InvalidShareId),
            r matches Ok(sh) ==> is_share(*self, id, sh) && 0 <= sh.1 < self.prime,
    {
        if id < 1 {
            return Err(ShamirError::InvalidShareId);
        }
        Ok((id as i64, poly_curve_eval(&self.coefficients, id, self.prime)))
    }

    /// Reconstructs the secret from `points[i]` (the share ids) and
    /// `values[i]` (the share values) by Lagrange interpolation at zero.
    /// Declines with `InsufficientShares` when fewer values than the
    /// threshold are offered, with `MismatchedInputLengths` when the two
    /// slices differ in length, and with `NonInvertibleDenominator` when some
    /// share's denominator has no inverse modulo the prime; otherwise it
    /// returns the interpolation value.
    pub fn recover_secret(threshold: u8, points: &[i64], values: &[i64], prime: i64) -> (r:
        Result<i64, ShamirError>)
        requires
            prime >= 2,
        ensures
            values@.len() < threshold as int ==> r == Err::<i64, ShamirError>(
                ShamirError::InsufficientShares,
            ),
            values@.len() >= threshold as int && points@.len() != values@.len() ==> r == Err::<
                i64,
                ShamirError,
            >(ShamirError::MismatchedInputLengths),
            values@.len() >= threshold as int && points@.len() == values@.len()
                && !all_denominators_invertible(points@, prime as int) ==> r == Err::<
                i64,
                ShamirError,
            >(ShamirError::NonInvertibleDenominator),
            values@.len() >= threshold as int && points@.len() == values@.len()
                && all_denominators_invertible(points@, prime as int) ==> r == Ok::<
                i64,
                ShamirError,
            >(lagrange_at_zero(points@, values@, prime as int) as i64),
            r matches Ok(v) ==> 0 <= v < prime,
    {
        if threshold as usize > values.len() {
            return Err(ShamirError::InsufficientShares);
        }
        if points.len() != values.len() {
            return Err(ShamirError::MismatchedInputLengths);
        }
        match lagrange_interpolation_at_zero(points, values, prime) {
            Some(v) => Ok(v),
            None => Err(ShamirError::NonInvertibleDenominator),
        }
    }
}

/// Share derivation is deterministic: any two results that `get_share`'s
/// contract permits for the same scheme and the same id are equal.
pub proof fn lemma_get_share_deterministic(s: SecretData, id: u8, r1: (i64, i64), r2: (i64, i64))
    requires
        is_share(s, id, r1),
        is_share(s, id, r2),
    ensures
        r1 == r2,
{
}

/// Round trip for a threshold of one: reconstructing from any single share
/// of a one-coefficient scheme yields the secret again.
pub proof fn lemma_round_trip_threshold_one(s: SecretData, id: u8, sh: (i64, i64))
    requires
        s.wf(),
        s.coefficients@.len() == 1,
        is_share(s, id, sh),
    ensures
        all_denominators_invertible(seq![sh.0], s.prime as int),
        lagrange_at_zero(seq![sh.0], seq![sh.1], s.prime as int) == s.coefficients@[0],
{
    let p: int = s.prime as int;
    let ps = seq![sh.0];
    let vs = seq![sh.1];
    lemma_small_mod(1nat, p as nat);
    assert(diff_prod_upto(ps, 0, 0) == 1);
    assert(prod_except_upto(ps, 0, 0) == 1);
    assert(denominator_prod(ps, 0) == 1);
    assert(numerator_prod(ps, 0) == 1);
    lemma_gcd_of_one(p);
    assert(denominator_invertible(ps, 0, p));
    assert(all_denominators_invertible(ps, p)) by {
        assert(forall|i: int|
            0 <= i < ps.len() ==> #[trigger] denominator_invertible(ps, i, p));
    }
    // the inverse of 1 is 1
    assert((1int * 1int) % p == 1) by {
        lemma_small_mod(1nat, p as nat);
    }
    lemma_inv_mod_is(1int, p, 1int);
    // the single share value is the secret itself
    let c = s.coefficients@;
    let x: int = id as int;
    let tail = c.subrange(1, 1);
    assert(tail =~= Seq::<i64>::empty());
    assert(poly_eval(tail, x) == 0);
    assert(poly_eval(c, x) == c[0] + x * poly_eval(tail, x));
    assert(x * 0 == 0) by (nonlinear_arith);
    lemma_small_mod(c[0] as nat, p as nat);
    assert(sh.1 == c[0]);
    // the one term of the interpolation is the value unchanged
    assert(lagrange_term(ps, vs, 0, p) == (sh.1 as int) % p);
    lemma_small_mod(sh.1 as nat, p as nat);
    assert(lagrange_sum_upto(ps, vs, p, 0) == 0);
    assert(lagrange_sum_upto(ps, vs, p, 1) == (0 + (sh.1 as int)) % p);
    assert(lagrange_at_zero(ps, vs, p) == (sh.1 as int) % p);
}

/// Round trip for a threshold of two: reconstructing from any two distinct
/// shares of a two-coefficient scheme returns the secret, whenever the
/// shares' Lagrange denominators are invertible — which is always the case
/// over a true prime larger than the share ids.
pub proof fn lemma_round_trip_threshold_two(
    s: SecretData,
    id1: u8,
    id2: u8,
    sh1: (i64, i64),
    sh2: (i64, i64),
)
    requires
        s.wf(),
        s.coefficients@.len() == 2,
        id1 != id2,
        is_share(s, id1, sh1),
        is_share(s, id2, sh2),
        all_denominators_invertible(seq![sh1.0, sh2.0], s.prime as int),
    ensures
        lagrange_at_zero(seq![sh1.0, sh2.0], seq![sh1.1, sh2.1], s.prime as int)
            == s.coefficients@[0],
{
    let p: int = s.prime as int;
    let c = s.coefficients@;
    let c0: int = c[0] as int;
    let c1: int = c[1] as int;
    let x1: int = sh1.0 as int;
    let x2: int = sh2.0 as int;
    let y1: int = sh1.1 as int;
    let y2: int = sh2.1 as int;
    let ps = seq![sh1.0, sh2.0];
    let vs = seq![sh1.1, sh2.1];
    let diff: int = x2 - x1;
    // the two share values are the polynomial's values at the two ids
    let tail = c.subrange(1, 2);
    let tail2 = tail.subrange(1, 1);
    assert(tail2 =~= Seq::<i64>::empty());
    assert(poly_eval(tail2, x1) == 0 && poly_eval(tail2, x2) == 0);
    assert(x1 * 0 == 0 && x2 * 0 == 0) by (nonlinear_arith);
    assert(poly_eval(tail, x1) == c1 && poly_eval(tail, x2) == c1);
    let a: int = c0 + x1 * c1;
    let b: int = c0 + x2 * c1;
    assert(poly_eval(c, x1) == a && poly_eval(c, x2) == b);
    assert(y1 == a % p && y2 == b % p);
    // the Lagrange numerators are the opposite ids, the denominators the
    // difference of the ids, in the two orders
    assert(prod_except_upto(ps, 0, 0) == 1 && prod_except_upto(ps, 0, 1) == 1);
    assert(prod_except_upto(ps, 0, 2) == 1 * ps[1]);
    assert(numerator_prod(ps, 0) == x2);
    assert(prod_except_upto(ps, 1, 0) == 1);
    assert(prod_except_upto(ps, 1, 1) == 1 * ps[0]);
    assert(prod_except_upto(ps, 1, 2) == prod_except_upto(ps, 1, 1));
    assert(numerator_prod(ps, 1) == x1);
    assert(diff_prod_upto(ps, 0, 0) == 1 && diff_prod_upto(ps, 0, 1) == 1);
    assert(diff_prod_upto(ps, 0, 2) == 1 * (ps[1] - ps[0]));
    assert(denominator_prod(ps, 0) == diff);
    assert(diff_prod_upto(ps, 1, 0) == 1 && diff_prod_upto(ps, 1, 1) == 1 * (ps[0] - ps[1]));
    assert(diff_prod_upto(ps, 1, 2) == diff_prod_upto(ps, 1, 1));
    assert(denominator_prod(ps, 1) == -diff);
    // both denominators have inverses
    assert(denominator_invertible(ps, 0, p));
    assert(denominator_invertible(ps, 1, p));
    let d: int = diff % p;
    let e: int = (-diff) % p;
    lemma_gcd_one_invertible(d, p);
    let v = inv_mod(d, p);
    lemma_gcd_one_invertible(e, p);
    let w = inv_mod(e, p);
    // the inverse of the negated denominator is the negated inverse
    assert(v >= 1) by {
        if v == 0 {
            assert(d * 0 == 0) by (nonlinear_arith);
            lemma_small_mod(0nat, p as nat);
        }
    }
    assert((e * (p - v)) % p == 1) by {
        assert((-diff) * (p - v) == p * (-diff) + diff * v) by (nonlinear_arith);
        lemma_mod_multiples_vanish(-diff, diff * v, p);
        lemma_mul_mod_noop_left(-diff, p - v, p);
        lemma_mul_mod_noop_left(diff, v, p);
    }
    lemma_inverse_unique(e, p, w, p - v);
    // the two terms, with the polynomial's values in place of the shares'
    let term0 = lagrange_term(ps, vs, 0, p);
    let term1 = lagrange_term(ps, vs, 1, p);
    assert(term0 == (y1 * x2 * v) % p);
    assert(term1 == (y2 * x1 * w) % p);
    assert(term0 == (a * x2 * v) % p) by {
        assert(y1 * x2 * v == y1 * (x2 * v)) by (nonlinear_arith);
        assert(a * (x2 * v) == a * x2 * v) by (nonlinear_arith);
        lemma_mul_mod_noop_left(y1, x2 * v, p);
        lemma_mul_mod_noop_left(a, x2 * v, p);
        lemma_small_mod(y1 as nat, p as nat);
    }
    assert(term1 == (b * x1 * (p - v)) % p) by {
        assert(y2 * x1 * w == y2 * (x1 * w)) by (nonlinear_arith);
        assert(b * (x1 * w) == b * x1 * w) by (nonlinear_arith);
        lemma_mul_mod_noop_left(y2, x1 * w, p);
        lemma_mul_mod_noop_left(b, x1 * w, p);
        lemma_small_mod(y2 as nat, p as nat);
    }
    // the interpolation is the reduced sum of the two terms
    assert(lagrange_sum_upto(ps, vs, p, 0) == 0);
    assert(lagrange_sum_upto(ps, vs, p, 1) == (0 + term0) % p);
    assert((0 + term0) % p == term0) by {
        lemma_small_mod(term0 as nat, p as nat);
    }
    assert(lagrange_at_zero(ps, vs, p) == (term0 + term1) % p);
    // and that sum telescopes to the secret
    assert((term0 + term1) % p == (a * x2 * v + b * x1 * (p - v)) % p) by {
        lemma_add_mod_noop(a * x2 * v, b * x1 * (p - v), p);
    }
    assert(a * x2 - b * x1 == c0 * diff) by (nonlinear_arith)
        requires
            a == c0 + x1 * c1,
            b == c0 + x2 * c1,
            diff == x2 - x1,
    ;
    assert((a * x2 - b * x1) * v == a * x2 * v - b * x1 * v) by (nonlinear_arith);
    assert((c0 * diff) * v == c0 * (diff * v)) by (nonlinear_arith);
    assert(a * x2 * v - b * x1 * v == c0 * (diff * v));
    assert(b * x1 * (p - v) == p * (b * x1) - b * x1 * v) by (nonlinear_arith);
    assert(a * x2 * v + b * x1 * (p - v) == p * (b * x1) + c0 * (diff * v));
    assert((p * (b * x1) + c0 * (diff * v)) % p == (c0 * (diff * v)) % p) by {
        lemma_mod_multiples_vanish(b * x1, c0 * (diff * v), p);
    }
    assert((diff * v) % p == 1) by {
        lemma_mul_mod_noop_left(diff, v, p);
    }
    assert((c0 * (diff * v)) % p == (c0 * 1) % p) by {
        lemma_mul_mod_noop_right(c0, diff * v, p);
    }
    assert(c0 % p == c0) by {
        lemma_small_mod(c0 as nat, p as nat);
    }
}

/// The share value at `x` of the two-coefficient scheme `(secret, c1)`.
pub open spec fn line_share_value(secret: i64, c1: i64, x: int, p: int) -> int {
    poly_eval(seq![secret, c1], x) % p
}

/// Share independence, for a single share of a two-coefficient scheme: a
/// share value at an id that is invertible modulo the prime — as every valid
/// id is over a true prime larger than the ids — is consistent with every
/// secret in `[0, prime)`: for each secret, some random coefficient yields
/// exactly that share value, so one share excludes no secret.
pub proof fn lemma_one_share_fits_every_secret(x: u8, y: i64, secret: i64, p: i64)
    requires
        p >= 2,
        0 <= y < p,
        0 <= secret < p,
        invertible(x as int, p as int),
    ensures
        exists|c1: i64|
            0 <= c1 < p && #[trigger] line_share_value(secret, c1, x as int, p as int) == y,
{
    let pi: int = p as int;
    let xi: int = x as int;
    let v = inv_mod(xi, pi);
    let d: int = y - secret;
    let c1i: int = (d * v) % pi;
    let c1w: i64 = c1i as i64;
    assert(c1w == c1i);
    // the polynomial with that coefficient takes the value secret + x * c1
    let cs = seq![secret, c1w];
    let tail = cs.subrange(1, 2);
    let tail2 = tail.subrange(1, 1);
    assert(tail2 =~= Seq::<i64>::empty());
    assert(poly_eval(tail2, xi) == 0);
    assert(xi * 0 == 0) by (nonlinear_arith);
    assert(poly_eval(tail, xi) == c1i);
    assert(poly_eval(cs, xi) == secret + xi * c1i);
    // and that value reduces to y
    assert((xi * c1i) % pi == (d * (xi * v)) % pi) by {
        lemma_mul_mod_noop_right(xi, d * v, pi);
        assert(xi * (d * v) == d * (xi * v)) by (nonlinear_arith);
    }
    assert((d * (xi * v)) % pi == d % pi) by {
        lemma_mul_mod_noop_right(d, xi * v, pi);
        assert(d * 1 == d) by (nonlinear_arith);
    }
    assert((secret + xi * c1i) % pi == (secret + d) % pi) by {
        lemma_add_mod_noop_right(secret as int, xi * c1i, pi);
        lemma_add_mod_noop_right(secret as int, d, pi);
    }
    assert((secret + d) % pi == y) by {
        lemma_small_mod(y as nat, p as nat);
    }
    assert(0 <= c1w < p && line_share_value(secret, c1w, x as int, p as int) == y);
}

} // verus!
