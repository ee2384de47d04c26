//! Arithmetic in the ring of integers modulo `q`, and the number theory that
//! makes it a field when `q` is prime.
//!
//! Residues are carried in `u32`; every intermediate product fits in `u64`.
//! The contracts are stated over mathematical integers with Euclidean `%`.

use vstd::arithmetic::div_mod::*;
use vstd::arithmetic::mul::*;
use vstd::prelude::*;

verus! {

/// `a` and `b` leave the same remainder modulo `q`.
pub open spec fn congruent(a: int, b: int, q: int) -> bool {
    (a - b) % q == 0
}

/// `p` is a prime number.
pub open spec fn is_prime(p: int) -> bool {
    p >= 2 && forall|d: int| 1 < d < p ==> #[trigger] (p % d) != 0
}

/// `v` is the reduced multiplicative inverse of `a` modulo `q`.
pub open spec fn is_inverse(a: int, v: int, q: int) -> bool {
    0 <= v < q && (a * v) % q == 1
}

/// `a` is a unit modulo `q`.
pub open spec fn has_inverse(a: int, q: int) -> bool {
    exists|v: int| is_inverse(a, v, q)
}

/// The reduced inverse of a unit `a` modulo `q`.
pub open spec fn inv_mod_spec(a: int, q: int) -> int {
    choose|v: int| is_inverse(a, v, q)
}

pub open spec fn add_mod_spec(a: int, b: int, q: int) -> int {
    (a + b) % q
}

pub open spec fn sub_mod_spec(a: int, b: int, q: int) -> int {
    (a - b) % q
}

pub open spec fn mul_mod_spec(a: int, b: int, q: int) -> int {
    (a * b) % q
}

pub open spec fn neg_mod_spec(a: int, q: int) -> int {
    (-a) % q
}

// ---------------------------------------------------------------------------
// Congruence lemmas
// ---------------------------------------------------------------------------
/// Congruence is the same as equal remainders.
pub proof fn lemma_congruent_iff(a: int, b: int, q: int)
    requires
        q > 0,
    ensures
        congruent(a, b, q) <==> a % q == b % q,
{
    lemma_mod_equivalence(a, b, q);
}

pub proof fn lemma_congruent_refl(a: int, q: int)
    requires
        q > 0,
    ensures
        congruent(a, a, q),
{
    lemma_small_mod(0, q as nat);
}

pub proof fn lemma_congruent_sym(a: int, b: int, q: int)
    requires
        q > 0,
        congruent(a, b, q),
    ensures
        congruent(b, a, q),
{
    lemma_congruent_iff(a, b, q);
    lemma_congruent_iff(b, a, q);
}

pub proof fn lemma_congruent_trans(a: int, b: int, c: int, q: int)
    requires
        q > 0,
        congruent(a, b, q),
        congruent(b, c, q),
    ensures
        congruent(a, c, q),
{
    lemma_congruent_iff(a, b, q);
    lemma_congruent_iff(b, c, q);
    lemma_congruent_iff(a, c, q);
}

/// A number is congruent to its remainder.
pub proof fn lemma_congruent_mod(a: int, q: int)
    requires
        q > 0,
    ensures
        congruent(a % q, a, q),
        congruent(a, a % q, q),
{
    lemma_mod_twice(a, q);
    lemma_congruent_iff(a % q, a, q);
    lemma_congruent_iff(a, a % q, q);
}

pub proof fn lemma_congruent_add(a: int, b: int, c: int, d: int, q: int)
    requires
        q > 0,
        congruent(a, b, q),
        congruent(c, d, q),
    ensures
        congruent(a + c, b + d, q),
{
    lemma_multiple_sum(a - b, c - d, 1, q);
    assert(1 * (a - b) + (c - d) == (a + c) - (b + d));
}

pub proof fn lemma_congruent_sub(a: int, b: int, c: int, d: int, q: int)
    requires
        q > 0,
        congruent(a, b, q),
        congruent(c, d, q),
    ensures
        congruent(a - c, b - d, q),
{
    lemma_congruent_sym(c, d, q);
    lemma_multiple_sum(a - b, d - c, 1, q);
    assert(1 * (a - b) + (d - c) == (a - c) - (b - d));
}

pub proof fn lemma_congruent_mul(a: int, b: int, c: int, d: int, q: int)
    requires
        q > 0,
        congruent(a, b, q),
        congruent(c, d, q),
    ensures
        congruent(a * c, b * d, q),
{
    // a*c - b*d == c*(a - b) + (b*(c - d))
    lemma_multiple_scaled(c - d, b, q);
    lemma_multiple_sum(a - b, b * (c - d), c, q);
    assert(c * (a - b) + b * (c - d) == a * c - b * d) by (nonlinear_arith);
}

/// A multiple of a multiple of `q` is a multiple of `q`.
pub proof fn lemma_multiple_scaled(x: int, k: int, q: int)
    requires
        q > 0,
        x % q == 0,
    ensures
        (k * x) % q == 0,
{
    lemma_fundamental_div_mod(x, q);
    let m: int = x / q;
    assert(x == q * m);
    assert(k * x == (k * m) * q) by (nonlinear_arith)
        requires
            x == q * m,
    ;
    lemma_mod_multiples_basic(k * m, q);
}

/// `k * x + y` is a multiple of `q` when `x` and `y` are.
pub proof fn lemma_multiple_sum(x: int, y: int, k: int, q: int)
    requires
        q > 0,
        x % q == 0,
        y % q == 0,
    ensures
        (k * x + y) % q == 0,
{
    lemma_multiple_scaled(x, k, q);
    lemma_fundamental_div_mod(k * x, q);
    lemma_fundamental_div_mod(y, q);
    let m: int = (k * x) / q + y / q;
    assert(k * x + y == m * q) by (nonlinear_arith)
        requires
            k * x == q * ((k * x) / q),
            y == q * (y / q),
            m == (k * x) / q + y / q,
    ;
    lemma_mod_multiples_basic(m, q);
}

/// A multiple of `q` strictly between `-q` and `q` is zero.
pub proof fn lemma_small_multiple_is_zero(x: int, q: int)
    requires
        q > 0,
        x % q == 0,
        -q < x < q,
    ensures
        x == 0,
{
    if x >= 0 {
        lemma_small_mod(x as nat, q as nat);
    } else {
        lemma_mod_add_multiples_vanish(x, q);
        lemma_small_mod((q + x) as nat, q as nat);
    }
}

/// Reduced residues that are congruent are equal.
pub proof fn lemma_congruent_small(a: int, b: int, q: int)
    requires
        q > 0,
        0 <= a < q,
        0 <= b < q,
        congruent(a, b, q),
    ensures
        a == b,
{
    lemma_small_multiple_is_zero(a - b, q);
}

// ---------------------------------------------------------------------------
// Inverses
// ---------------------------------------------------------------------------
/// The reduced inverse, where there is one, is unique.
pub proof fn lemma_inverse_unique(a: int, v: int, w: int, q: int)
    requires
        q > 0,
        is_inverse(a, v, q),
        is_inverse(a, w, q),
    ensures
        v == w,
{
    // v == v*(a*w) == (v*a)*w == w   (mod q)
    lemma_congruent_iff(a * v, 1, q);
    lemma_congruent_iff(a * w, 1, q);
    lemma_small_mod(1, q as nat);
    lemma_congruent_refl(v, q);
    lemma_congruent_refl(w, q);
    lemma_congruent_mul(v, v, a * w, 1, q);
    lemma_congruent_mul(a * v, 1, w, w, q);
    assert(v * (a * w) == (a * v) * w) by (nonlinear_arith);
    lemma_congruent_sym(v * (a * w), v * 1, q);
    lemma_congruent_trans(v * 1, (a * v) * w, 1 * w, q);
    lemma_congruent_small(v, w, q);
}

/// Whoever holds one inverse holds `inv_mod_spec`.
pub proof fn lemma_inverse_is_spec(a: int, v: int, q: int)
    requires
        q > 0,
        is_inverse(a, v, q),
    ensures
        has_inverse(a, q),
        inv_mod_spec(a, q) == v,
{
    lemma_inverse_unique(a, v, inv_mod_spec(a, q), q);
}

/// Multiplying by a unit and then by its inverse gives the number back.
pub proof fn lemma_inverse_cancels(x: int, a: int, q: int)
    requires
        q > 0,
        has_inverse(a, q),
    ensures
        congruent(x * inv_mod_spec(a, q) * a, x, q),
{
    let v: int = inv_mod_spec(a, q);
    lemma_congruent_iff(a * v, 1, q);
    lemma_small_mod(1, q as nat);
    lemma_congruent_refl(x, q);
    lemma_congruent_mul(x, x, a * v, 1, q);
    assert(x * (a * v) == x * v * a) by (nonlinear_arith);
}

/// Being a unit depends on the residue class only.
pub proof fn lemma_inverse_of_residue(a: int, v: int, q: int)
    requires
        q > 0,
    ensures
        is_inverse(a % q, v, q) <==> is_inverse(a, v, q),
{
    lemma_mul_mod_noop_left(a, v, q);
}

/// A common divisor of `q` and `a` larger than one rules out an inverse of `a`.
pub proof fn lemma_common_divisor_no_inverse(a: int, q: int, g: int)
    requires
        q > 0,
        g >= 2,
        q % g == 0,
        a % g == 0,
    ensures
        !has_inverse(a, q),
{
    if has_inverse(a, q) {
        let v: int = inv_mod_spec(a, q);
        let k: int = (a * v) / q;
        lemma_fundamental_div_mod(a * v, q);
        assert(a * v == q * k + 1);
        // g divides a*v and q*k, hence 1
        lemma_multiple_scaled(a, v, g);
        lemma_multiple_scaled(q, k, g);
        assert(v * a == a * v) by (nonlinear_arith);
        assert(k * q == q * k) by (nonlinear_arith);
        lemma_multiple_sum(q * k, a * v, -1, g);
        assert(-1 * (q * k) + a * v == 1);
        lemma_small_mod(1, g as nat);
    }
}

// ---------------------------------------------------------------------------
// Primes: every non-zero residue is a unit
// ---------------------------------------------------------------------------
/// Greatest common divisor by Euclid's recursion.
pub open spec fn gcd(a: nat, b: nat) -> nat
    decreases b,
{
    if b == 0 {
        a
    } else {
        gcd(b, a % b)
    }
}

/// The greatest common divisor divides both numbers.
pub proof fn lemma_gcd_divides(a: nat, b: nat)
    requires
        a > 0 || b > 0,
    ensures
        gcd(a, b) > 0,
        (a as int) % (gcd(a, b) as int) == 0,
        (b as int) % (gcd(a, b) as int) == 0,
    decreases b,
{
    if b == 0 {
        lemma_mod_self_0(a as int);
        lemma_mod_multiples_basic(0, a as int);
    } else {
        lemma_gcd_divides(b, a % b);
        let g: int = gcd(a, b) as int;
        lemma_fundamental_div_mod(a as int, b as int);
        let k: int = (a as int) / (b as int);
        lemma_multiple_sum(b as int, (a % b) as int, k, g);
        assert(k * b == b * k) by (nonlinear_arith);
    }
}

/// Bezout coefficients: `a * x + b * y == gcd(a, b)`.
pub proof fn lemma_bezout(a: nat, b: nat) -> (c: (int, int))
    ensures
        a * c.0 + b * c.1 == gcd(a, b),
    decreases b,
{
    if b == 0 {
        (1, 0)
    } else {
        let (x, y) = lemma_bezout(b, a % b);
        let k: int = (a as int) / (b as int);
        lemma_fundamental_div_mod(a as int, b as int);
        let r: int = (a % b) as int;
        assert(a * y + b * (x - k * y) == b * x + r * y) by (nonlinear_arith)
            requires
                a == b * k + r,
        ;
        (y, x - k * y)
    }
}

/// Modulo a prime, every number that is not a multiple of it is a unit.
pub proof fn lemma_prime_units(a: int, p: int)
    requires
        is_prime(p),
        a % p != 0,
    ensures
        has_inverse(a, p),
{
    let r: nat = (a % p) as nat;
    lemma_mod_bound(a, p);
    lemma_gcd_divides(p as nat, r);
    let g: int = gcd(p as nat, r) as int;
    // g divides r < p, so g < p; g divides the prime p, so g == 1
    assert(g <= r) by {
        if g > r {
            lemma_small_mod(r, g as nat);
        }
    }
    assert(g == 1) by {
        if g > 1 {
            assert(p % g != 0);
        }
    }
    let (x, y) = lemma_bezout(p as nat, r);
    assert(p * x + r * y == 1);
    let v: int = y % p;
    lemma_mod_bound(y, p);
    // r * y == 1 - p * x, so r * y leaves remainder one
    assert((r * y) % p == 1) by {
        lemma_mod_multiples_vanish(-x, 1, p);
        lemma_small_mod(1, p as nat);
        assert(p * (-x) + 1 == r * y) by (nonlinear_arith)
            requires
                p * x + r * y == 1,
        ;
    }
    lemma_mul_mod_noop_right(r as int, y, p);
    assert(is_inverse(r as int, v, p));
    lemma_inverse_of_residue(a, v, p);
}

/// Modulo any `q`, a multiple of `q` is no unit (for `q >= 2`).
pub proof fn lemma_zero_no_inverse(a: int, q: int)
    requires
        q >= 2,
        a % q == 0,
    ensures
        !has_inverse(a, q),
{
    lemma_mod_self_0(q);
    lemma_common_divisor_no_inverse(a, q, q);
}

/// Modulo a prime, the units are exactly the non-zero residues.
pub proof fn lemma_prime_unit_iff(a: int, p: int)
    requires
        is_prime(p),
    ensures
        has_inverse(a, p) <==> a % p != 0,
{
    if a % p != 0 {
        lemma_prime_units(a, p);
    } else {
        lemma_zero_no_inverse(a, p);
    }
}

// ---------------------------------------------------------------------------
// Executable arithmetic
// ---------------------------------------------------------------------------
/// `(a + b) mod q`.
pub fn add_mod(a: u32, b: u32, q: u32) -> (r: u32)
    requires
        q > 0,
    ensures
        r == add_mod_spec(a as int, b as int, q as int),
        r < q,
{
    let s: u64 = a as u64 + b as u64;
    (s % (q as u64)) as u32
}

/// `(a - b) mod q`, the representative in `0..q`.
pub fn sub_mod(a: u32, b: u32, q: u32) -> (r: u32)
    requires
        q > 0,
    ensures
        r == sub_mod_spec(a as int, b as int, q as int),
        r < q,
{
    let ar: u64 = (a % q) as u64;
    let br: u64 = (b % q) as u64;
    let s: u64 = ar + (q as u64) - br;
    proof {
        // (a%q + q - b%q) % q == (a - b) % q
        lemma_sub_mod_noop(a as int, b as int, q as int);
        lemma_mod_add_multiples_vanish(ar as int - br as int, q as int);
    }
    (s % (q as u64)) as u32
}

/// `(a * b) mod q`.
pub fn mul_mod(a: u32, b: u32, q: u32) -> (r: u32)
    requires
        q > 0,
    ensures
        r == mul_mod_spec(a as int, b as int, q as int),
        r < q,
{
    assert(a as u64 * b as u64 <= 0xffff_ffff * 0xffff_ffff) by (nonlinear_arith)
        requires
            a as u64 <= 0xffff_ffff,
            b as u64 <= 0xffff_ffff,
    ;
    let p: u64 = (a as u64) * (b as u64);
    (p % (q as u64)) as u32
}

/// `(-a) mod q`, the representative in `0..q`.
pub fn neg_mod(a: u32, q: u32) -> (r: u32)
    requires
        q > 0,
    ensures
        r == neg_mod_spec(a as int, q as int),
        r < q,
{
    let ar: u32 = a % q;
    let s: u32 = q - ar;
    proof {
        // (q - a%q) % q == (-a) % q
        lemma_sub_mod_noop_right(0, a as int, q as int);
        lemma_mod_add_multiples_vanish(-(ar as int), q as int);
    }
    s % q
}

/// The multiplicative inverse of `a` modulo `q`, by Euclid's algorithm with
/// the cofactor of `a` kept reduced.
///
/// Returns `Some(v)` with `v` the inverse in `0..q` exactly when `a` is a unit
/// modulo `q`, and `None` otherwise.
pub fn inv_mod(a: u32, q: u32) -> (r: Option<u32>)
    requires
        q > 0,
    ensures
        match r {
            Some(v) => is_inverse(a as int, v as int, q as int),
            None => !has_inverse(a as int, q as int),
        },
        r is Some <==> has_inverse(a as int, q as int),
{
    if q == 1 {
        assert forall|v: int| !is_inverse(a as int, v, 1) by {
            lemma_mod_multiples_basic(a * v, 1);
            assert((a * v) * 1 == a * v);
        }
        return None;
    }
    let a0: u32 = a % q;
    // Invariant: r0 == s0 * a0 and r1 == s1 * a0 modulo q.
    let mut r0: u32 = q;
    let mut r1: u32 = a0;
    let mut s0: u32 = 0;
    let mut s1: u32 = 1;
    proof {
        lemma_mod_self_0(q as int);
        lemma_mod_multiples_basic(-1, q as int);
        assert(0 * a0 - q == -1 * q);
        assert(1 * a0 - a0 == 0);
        lemma_small_mod(0, q as nat);
    }
    while r1 != 0
        invariant
            q >= 2,
            a0 == a % q,
            0 < r0 <= q,
            r1 < q,
            s0 < q,
            s1 < q,
            congruent(s0 * a0, r0 as int, q as int),
            congruent(s1 * a0, r1 as int, q as int),
            forall|d: int|
                d > 0 && #[trigger] (r0 as int % d) == 0 && #[trigger] (r1 as int % d) == 0
                    ==> (q as int) % d == 0 && (a0 as int) % d == 0,
        decreases r1,
    {
        let k: u32 = r0 / r1;
        let r2: u32 = r0 % r1;
        let ks: u32 = mul_mod(k, s1, q);
        let s2: u32 = sub_mod(s0, ks, q);
        proof {
            let qi: int = q as int;
            lemma_fundamental_div_mod(r0 as int, r1 as int);
            assert(r2 == r0 - r1 * k);
            // s2 * a0 == (s0 - k*s1) * a0 == r0 - k*r1 == r2   (mod q)
            lemma_congruent_mod(k * s1, qi);
            lemma_congruent_refl(s0 as int, qi);
            lemma_congruent_sub(s0 as int, s0 as int, ks as int, k * s1, qi);
            lemma_congruent_mod(s0 - ks, qi);
            lemma_congruent_trans(s2 as int, s0 - ks, s0 - k * s1, qi);
            lemma_congruent_refl(a0 as int, qi);
            lemma_congruent_mul(s2 as int, s0 - k * s1, a0 as int, a0 as int, qi);
            lemma_congruent_refl(k as int, qi);
            lemma_congruent_mul(k as int, k as int, s1 * a0, r1 as int, qi);
            lemma_congruent_sub(s0 * a0, r0 as int, k * (s1 * a0), k * r1, qi);
            assert((s0 - k * s1) * a0 == s0 * a0 - k * (s1 * a0)) by (nonlinear_arith);
            assert(k * r1 == r1 * k) by (nonlinear_arith);
            lemma_congruent_trans(s2 * a0, (s0 - k * s1) * a0, r2 as int, qi);
            // common divisors of (r1, r2) divide r0 too
            assert forall|d: int|
                d > 0 && #[trigger] (r1 as int % d) == 0 && #[trigger] (r2 as int % d)
                    == 0 implies (q as int) % d == 0 && (a0 as int) % d == 0 by {
                lemma_multiple_sum(r1 as int, r2 as int, k as int, d);
                assert(k * r1 + r2 == r0);
            }
        }
        r0 = r1;
        r1 = r2;
        s0 = s1;
        s1 = s2;
    }
    if r0 == 1 {
        proof {
            lemma_congruent_iff(s0 * a0, 1, q as int);
            lemma_small_mod(1, q as nat);
            assert(a0 * s0 == s0 * a0) by (nonlinear_arith);
            lemma_inverse_of_residue(a as int, s0 as int, q as int);
            lemma_inverse_is_spec(a as int, s0 as int, q as int);
        }
        Some(s0)
    } else {
        proof {
            lemma_mod_self_0(r0 as int);
            lemma_mod_multiples_basic(0, r0 as int);
            assert(r1 as int % (r0 as int) == 0);
            assert((q as int) % (r0 as int) == 0 && (a0 as int) % (r0 as int) == 0);
            lemma_common_divisor_no_inverse(a0 as int, q as int, r0 as int);
            assert forall|v: int| !is_inverse(a as int, v, q as int) by {
                lemma_inverse_of_residue(a as int, v, q as int);
            }
        }
        None
    }
}

/// Decides primality by trial division up to the square root.
pub fn is_prime_u32(p: u32) -> (b: bool)
    ensures
        b == is_prime(p as int),
{
    if p < 2 {
        return false;
    }
    let mut d: u32 = 2;
    while d <= p / d
        invariant
            p >= 2,
            2 <= d,
            forall|e: int| 1 < e < d ==> #[trigger] (p as int % e) != 0,
        decreases p - d,
    {
        proof {
            lemma_fundamental_div_mod(p as int, d as int);
            lemma_mod_bound(p as int, d as int);
            assert(d * d <= p) by (nonlinear_arith)
                requires
                    p == d * (p / d) + p % d,
                    0 <= p % d,
                    d <= p / d,
                    d >= 2,
            ;
            assert(d < p) by (nonlinear_arith)
                requires
                    d * d <= p,
                    d >= 2,
            ;
        }
        if p % d == 0 {
            return false;
        }
        d = d + 1;
    }
    proof {
        lemma_fundamental_div_mod(p as int, d as int);
        lemma_mod_bound(p as int, d as int);
        assert(d * d > p) by (nonlinear_arith)
            requires
                p == d * (p / d) + p % d,
                p % d < d,
                d > p / d,
                d >= 2,
        ;
        assert forall|e: int| 1 < e < p implies #[trigger] (p as int % e) != 0 by {
            if e >= d && p as int % e == 0 {
                // the cofactor of e is a divisor below d
                let f: int = p as int / e;
                lemma_fundamental_div_mod(p as int, e);
                assert(p == e * f);
                assert(1 < f < d) by (nonlinear_arith)
                    requires
                        p == e * f,
                        d <= e < p,
                        d * d > p,
                        d >= 2,
                ;
                lemma_mod_multiples_basic(e, f);
                assert(e * f == f * e) by (nonlinear_arith);
                assert(p as int % f == 0);
            }
        }
    }
    true
}

} // verus!
